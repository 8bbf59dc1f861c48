use unistellar_search::codec::{Identifier, StoreValue};
use unistellar_search::config::Config;
use unistellar_search::errors::SearchError;
use unistellar_search::search::{decode_rows, record_query, run_search, search_query, Name,
    RawCandidate};
use unistellar_search::score::Scorer;
use unistellar_search::token::SearchToken;

const ID_A: &str = "01J88T2H1G3XHEN8J9ME231QGM";
const ID_B: &str = "01J88T2H1HTXB53ZHRQ375RMJF";

fn token(s: &str) -> SearchToken {
    SearchToken::make(String::from(s)).unwrap()
}

fn row(id: &str, fields: &[&str]) -> RawCandidate {
    RawCandidate {
        id: StoreValue::Record { table: String::from("course"), key: String::from(id) },
        fields: fields.iter().map(|f| String::from(*f)).collect(),
    }
}

#[test]
fn failed_fetch_surfaces_source_unavailable() {
    let r = run_search(None, &token("science"), Scorer::Similarity);
    assert_eq!(r.unwrap_err(), SearchError::SourceUnavailable);
}

#[test]
fn one_malformed_identifier_aborts_the_whole_search() {
    let rows = vec![
        row(ID_A, &["Intro to Life Science"]),
        row("not a ulid at all!!!!!!!!!", &["Fundamentals of Data Science"]),
    ];
    let r = run_search(Some(rows), &token("science"), Scorer::Similarity);
    assert_eq!(r.unwrap_err(), SearchError::MalformedIdentifier);
}

#[test]
fn successful_search_returns_every_row_ranked() {
    let rows = vec![
        row(ID_A, &["History of Art"]),
        row(ID_B, &["Fundamentals of Data Science"]),
    ];
    let out = run_search(Some(rows), &token("science"), Scorer::Similarity).unwrap();
    assert_eq!(out.len(), 2);
    assert_eq!(out[0].id.encode(), ID_B);
    assert_eq!(out[1].id.encode(), ID_A);
}

#[test]
fn decode_rows_keeps_source_order() {
    let rows = vec![row(ID_B, &["b"]), row(ID_A, &["a"])];
    let cands = decode_rows(rows).unwrap();
    assert_eq!(cands.len(), 2);
    assert_eq!(cands[0].id.encode(), ID_B);
    assert_eq!(cands[1].id.encode(), ID_A);
    assert_eq!(cands[0].fields, vec![String::from("b")]);
}

#[test]
fn coarse_query_interpolates_only_the_token() {
    let fields = vec![String::from("name"), String::from("code")];
    let q = search_query("course", &fields, &token("science"));
    assert_eq!(q, "SELECT * FROM course WHERE name ~ 'science' OR code ~ 'science'");

    let fields = vec![String::from("name")];
    let q = search_query("university", &fields, &token("Cal Poly"));
    assert_eq!(q, "SELECT * FROM university WHERE name ~ 'Cal Poly'");
}

#[test]
fn record_query_uses_the_canonical_encoding() {
    let sample = "01J7YZ7MC3P44547KT11KHXGJV";
    let id = Identifier::new(ulid::Ulid::from_string(sample).unwrap().0);
    let q = record_query("user", &id);
    assert_eq!(q, format!("SELECT * FROM ONLY user:`{sample}`"));
}

#[test]
fn name_joins_first_and_last() {
    let n = Name { first: String::from("Amy"), last: String::from("Nguyen") };
    assert_eq!(n.full(), "Amy Nguyen");
}

#[test]
fn config_urls() {
    let c = Config {
        db_addr: String::from("127.0.0.1:8000"),
        db_store_path: Some(String::from("/var/lib/store")),
    };
    assert_eq!(c.db_url(), "http://127.0.0.1:8000");
    assert_eq!(c.db_store_url().unwrap(), "rocksdb:///var/lib/store");

    let c = Config { db_addr: String::from("localhost:9"), db_store_path: None };
    assert_eq!(c.db_url(), "http://localhost:9");
    assert!(c.db_store_url().is_none());
}
