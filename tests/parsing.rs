use mjolnir::digest::{content_hash, to_hex};
use mjolnir::signature::{environment_signature, index_signature, join_with_commas};
use mjolnir::step::{extract_index_from_step, ParseError, ResourceSpec};

fn spec(index_type: &str, data_source: &str, regions: &[&str]) -> ResourceSpec {
    ResourceSpec {
        index_type: index_type.to_string(),
        data_source: data_source.to_string(),
        regions: regions.iter().map(|r| r.to_string()).collect(),
    }
}

#[test]
fn parses_scenario_a() {
    let s = extract_index_from_step("bano covering addresses in 75,92").unwrap();
    assert_eq!(s.index_type, "bano");
    assert_eq!(s.data_source, "addresses");
    assert_eq!(s.regions, vec!["75".to_string(), "92".to_string()]);
}

#[test]
fn parse_keeps_region_order() {
    let s = extract_index_from_step("cosmogony covering osm in 92,75,2A").unwrap();
    assert_eq!(s.index_type, "cosmogony");
    assert_eq!(s.data_source, "osm");
    assert_eq!(s.regions, vec!["92".to_string(), "75".to_string(), "2A".to_string()]);
}

#[test]
fn parse_single_region() {
    let s = extract_index_from_step("admin covering osm in france").unwrap();
    assert_eq!(s.regions, vec!["france".to_string()]);
}

#[test]
fn parse_refuses_malformed_text() {
    let bad = [
        "",
        "bano",
        "bano covering addresses",
        "bano covering addresses in",
        "bano covering addresses in ",
        "bano covering addresses in 75,,92",
        "bano covering addresses in ,75",
        "bano covering addresses in 75,",
        "bano covering addresses in 75, 92",
        "bano  covering addresses in 75",
        "bano covering  addresses in 75",
        "bano from addresses in 75",
        "bano covering addresses at 75",
        " bano covering addresses in 75",
        "covering addresses in 75",
    ];
    for text in bad.iter() {
        assert_eq!(extract_index_from_step(text).unwrap_err(), ParseError, "{}", text);
    }
}

#[test]
fn step_text_round_trip() {
    let text = "bano covering addresses in 75,92";
    let s = extract_index_from_step(text).unwrap();
    assert_eq!(s.to_step_text(), text);
    assert_eq!(spec("a", "b", &["x", "y", "z"]).to_step_text(), "a covering b in x,y,z");
}

#[test]
fn join_with_commas_values() {
    assert_eq!(join_with_commas(&vec![]), "");
    assert_eq!(join_with_commas(&vec!["a".to_string()]), "a");
    assert_eq!(join_with_commas(&vec!["a".to_string(), "bc".to_string()]), "a,bc");
}

#[test]
fn content_hash_is_md5_hex() {
    assert_eq!(content_hash(b""), "d41d8cd98f00b204e9800998ecf8427e");
    assert_eq!(content_hash(b"abc"), "900150983cd24fb0d6963f7d28e17f72");
    assert_ne!(content_hash(b"abc"), "abc");
}

#[test]
fn hex_encoding() {
    assert_eq!(to_hex(&[0x00, 0x0f, 0xa5, 0xff]), "000fa5ff");
    assert_eq!(to_hex(&[]), "");
}

#[test]
fn signature_is_order_independent() {
    let a = index_signature(&spec("bano", "addresses", &["75", "92"]));
    let b = index_signature(&spec("bano", "addresses", &["92", "75"]));
    assert_eq!(a, b);
    assert_eq!(a, "0116cf9a951218679889badc40e405e3");
    let c = index_signature(&spec("bano", "addresses", &["75", "93"]));
    assert_ne!(a, c);
    let d = index_signature(&spec("bano", "addresses", &["75", "75", "92"]));
    assert_ne!(a, d);
}

#[test]
fn environment_signature_is_order_independent() {
    let x = "0116cf9a951218679889badc40e405e3".to_string();
    let y = "d41d8cd98f00b204e9800998ecf8427e".to_string();
    let a = environment_signature(&vec![x.clone(), y.clone()]);
    let b = environment_signature(&vec![y.clone(), x.clone()]);
    assert_eq!(a, b);
    assert_eq!(environment_signature(&vec![]), "d41d8cd98f00b204e9800998ecf8427e");
}
