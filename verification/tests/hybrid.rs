use brindle::fusion::FusionError;
use brindle::hybrid::{
    depth, fuse, id_of, key_of, resolve, says_anything, CatalogFacts, HybridError, Names, TextKind,
};
use brindle::pg_vector::VectorError;

fn contribute(k: u64, rank: u64) -> u64 {
    (1.0 / (f64::from_bits(k) + rank as f64)).to_bits()
}

fn sum(a: u64, b: u64) -> u64 {
    (f64::from_bits(a) + f64::from_bits(b)).to_bits()
}

fn text(s: &str) -> Option<String> {
    Some(s.to_string())
}

const NAMES: Names<'static> = Names {
    relation: "docs",
    id_column: "id",
    vector_column: "embedding",
    text_column: "body",
};

fn facts() -> CatalogFacts {
    CatalogFacts {
        rel_ident: text("public.docs"),
        id_ident: text("id"),
        vec_ident: text("embedding"),
        text_ident: text("body"),
        id_type: text("int8"),
        vec_type: text("brindle_vector"),
        text_type: text("text"),
        vec_operators: text("public.<->"),
    }
}

fn failure(f: CatalogFacts) -> String {
    resolve(f, &NAMES).err().unwrap().message("")
}

#[test]
fn a_sound_catalog_resolves() {
    let r = resolve(facts(), &NAMES).ok().unwrap();
    assert!(matches!(r.text_kind, TextKind::Text));
    assert_eq!(
        r.vector_sql(),
        "SELECT (id)::bigint FROM public.docs WHERE embedding IS NOT NULL \
         ORDER BY embedding OPERATOR(public.<->) $1 LIMIT $2"
    );
    assert_eq!(
        r.text_sql(false),
        "SELECT (id)::bigint FROM public.docs WHERE to_tsvector(body) @@ \
         websearch_to_tsquery($1) ORDER BY ts_rank(to_tsvector(body), \
         websearch_to_tsquery($1)) DESC, (id)::bigint ASC LIMIT $2"
    );
    assert_eq!(
        r.text_sql(true),
        "SELECT (id)::bigint FROM public.docs WHERE to_tsvector($2::regconfig, body) @@ \
         websearch_to_tsquery($2::regconfig, $1) ORDER BY \
         ts_rank(to_tsvector($2::regconfig, body), websearch_to_tsquery($2::regconfig, $1)) \
         DESC, (id)::bigint ASC LIMIT $3"
    );
}

#[test]
fn a_stored_lexeme_column_is_read_directly() {
    let mut f = facts();
    f.text_type = text("tsvector");
    let r = resolve(f, &NAMES).ok().unwrap();
    assert!(matches!(r.text_kind, TextKind::Tsvector));
    assert!(r.text_sql(true).contains("WHERE body @@ websearch_to_tsquery($2::regconfig, $1)"));
}

#[test]
fn the_first_catalog_fault_is_reported() {
    let mut f = facts();
    f.rel_ident = None;
    f.id_type = None;
    assert_eq!(failure(f), "relation \"docs\" does not exist");

    let mut f = facts();
    f.id_type = None;
    f.vec_type = None;
    assert_eq!(
        failure(f),
        "id column \"id\" does not exist on the relation"
    );

    let mut f = facts();
    f.id_type = text("uuid");
    assert_eq!(
        failure(f),
        "id column \"id\" is uuid, but must be an integer type (smallint, integer, or bigint)"
    );

    let mut f = facts();
    f.vec_type = None;
    assert_eq!(
        failure(f),
        "vector column \"embedding\" does not exist on the relation"
    );

    let mut f = facts();
    f.vec_type = text("_float4");
    assert_eq!(
        failure(f),
        "vector column \"embedding\" is _float4, but must be brindle_vector"
    );

    let mut f = facts();
    f.text_type = None;
    assert_eq!(
        failure(f),
        "text column \"body\" does not exist on the relation"
    );

    let mut f = facts();
    f.text_type = text("jsonb");
    assert_eq!(
        failure(f),
        "text column \"body\" is jsonb, but must be tsvector or a text type \
         (text, varchar, char)"
    );

    for none in [None, text("")] {
        let mut f = facts();
        f.vec_operators = none;
        assert_eq!(
            failure(f),
            "hybrid search needs a brindle index on vector column \"embedding\" \
             (its operator class selects the distance metric)"
        );
    }

    let mut f = facts();
    f.vec_operators = text("public.<->|public.<=>");
    assert_eq!(
        failure(f),
        "vector column \"embedding\" has brindle indexes with different metrics \
         (public.<->|public.<=>); drop one so the metric is unambiguous"
    );
}

#[test]
fn depth_defaults_to_a_few_times_k() {
    assert_eq!(depth(1, None).ok(), Some(40));
    assert_eq!(depth(10, None).ok(), Some(40));
    assert_eq!(depth(11, None).ok(), Some(44));
    assert_eq!(depth(i32::MAX, None).ok(), Some(i32::MAX));
    assert_eq!(depth(10, Some(3)).ok(), Some(3));
    assert_eq!(
        depth(0, None).err().unwrap().message(""),
        "k must be at least 1, got 0"
    );
    assert_eq!(
        depth(5, Some(-2)).err().unwrap().message(""),
        "n must be at least 1, got -2"
    );
}

#[test]
fn blank_queries_say_nothing() {
    assert!(!says_anything(""));
    assert!(!says_anything(" \t\n\u{3000}"));
    assert!(says_anything("  a "));
}

#[test]
fn keys_keep_the_order_of_ids() {
    let ids = [i64::MIN, -5, -1, 0, 1, 7, i64::MAX];
    for w in ids.windows(2) {
        assert!(key_of(w[0]) < key_of(w[1]));
    }
    for id in ids {
        assert_eq!(id_of(key_of(id)), id);
    }
    assert_eq!(key_of(0), 1 << 63);
}

#[test]
fn fused_rows_carry_their_ranks() {
    let k60 = 60.0f64.to_bits();
    let rows = fuse(&contribute, &sum, &[10, 20, 30], &[20, 40, 10], k60, 3)
        .ok()
        .unwrap();
    let seen: Vec<(i64, Option<i32>, Option<i32>)> = rows
        .iter()
        .map(|r| (r.0, r.2, r.3))
        .collect();
    assert_eq!(
        seen,
        vec![
            (20, Some(2), Some(1)),
            (10, Some(1), Some(3)),
            (40, None, Some(2)),
        ]
    );
    let best = f64::from_bits(rows[0].1);
    assert!((best - (1.0 / 61.0 + 1.0 / 62.0)).abs() < 1e-12);
}

#[test]
fn ties_between_negative_ids_go_to_the_smaller() {
    let k60 = 60.0f64.to_bits();
    let rows = fuse(&contribute, &sum, &[-3], &[-7], k60, 10).ok().unwrap();
    let ids: Vec<i64> = rows.iter().map(|r| r.0).collect();
    assert_eq!(ids, vec![-7, -3]);
}

#[test]
fn an_unusable_constant_fails_the_fusion() {
    let k = (-1.0f64).to_bits();
    let err = fuse(&contribute, &sum, &[1], &[2], k, 10).err().unwrap();
    assert!(matches!(
        err,
        HybridError::Fusion(FusionError::InvalidK { k: bad }) if bad == k
    ));
    assert_eq!(
        err.message("-1"),
        "invalid RRF k: -1 (must be finite and >= 0)"
    );
    assert_eq!(
        HybridError::Vector(VectorError::Empty).message(""),
        "vector must have at least one dimension"
    );
}

#[test]
fn an_empty_side_leaves_the_other_ranking() {
    let k60 = 60.0f64.to_bits();
    let rows = fuse(&contribute, &sum, &[9, -4, 5], &[], k60, 2).ok().unwrap();
    let seen: Vec<(i64, Option<i32>, Option<i32>)> =
        rows.iter().map(|r| (r.0, r.2, r.3)).collect();
    assert_eq!(seen, vec![(9, Some(1), None), (-4, Some(2), None)]);
    assert_eq!(rows[1].1, (1.0f64 / 62.0).to_bits());

    let rows = fuse(&contribute, &sum, &[], &[9, -4, 5], k60, 7).ok().unwrap();
    let seen: Vec<(i64, Option<i32>, Option<i32>)> =
        rows.iter().map(|r| (r.0, r.2, r.3)).collect();
    assert_eq!(
        seen,
        vec![(9, None, Some(1)), (-4, None, Some(2)), (5, None, Some(3))]
    );
}
