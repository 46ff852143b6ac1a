use s3b::archive::{read_plan, write_plan};
use s3b::codec::{decode_plan, encode_plan};
use s3b::{Plan, PlanEntry};

fn entry(key: &str, path: &str, hash: &str, modified: u64) -> PlanEntry {
    PlanEntry {
        key: key.to_string(),
        path: path.to_string(),
        hash: hash.to_string(),
        modified,
    }
}

fn sample_plan() -> Plan {
    Plan {
        bucket_name: "my-bucket".to_string(),
        base_path: "/home/op/data".to_string(),
        entries: vec![
            entry("docs/a.txt", "/home/op/data/docs/a.txt", "aa11", 100),
            entry("docs/b.txt", "/home/op/data/docs/b.txt", "bb22", 200),
            entry("img/c.png", "/home/op/data/img/c.png", "cc33", 300),
        ],
    }
}

fn assert_plans_equal(p: &Plan, q: &Plan) {
    assert_eq!(p.bucket_name, q.bucket_name);
    assert_eq!(p.base_path, q.base_path);
    assert_eq!(p.entries.len(), q.entries.len());
    for (a, b) in p.entries.iter().zip(q.entries.iter()) {
        assert_eq!(a.key, b.key);
        assert_eq!(a.path, b.path);
        assert_eq!(a.hash, b.hash);
        assert_eq!(a.modified, b.modified);
    }
}

#[test]
fn round_trip_plain_plan() {
    let p = sample_plan();
    let bytes = write_plan(&p);
    let q = read_plan(&bytes).expect("reading back a written plan must succeed");
    assert_plans_equal(&p, &q);
}

#[test]
fn round_trip_empty_plan() {
    let p = Plan {
        bucket_name: "b".to_string(),
        base_path: "/".to_string(),
        entries: Vec::new(),
    };
    let bytes = write_plan(&p);
    let q = read_plan(&bytes).expect("reading back a written empty plan must succeed");
    assert_plans_equal(&p, &q);
}

#[test]
fn round_trip_unicode_fields() {
    let p = Plan {
        bucket_name: "bücket-ñ".to_string(),
        base_path: "/home/öp/데이터".to_string(),
        entries: vec![entry("docs/résumé.txt", "/home/öp/데이터/docs/résumé.txt", "dd44", 7)],
    };
    let bytes = write_plan(&p);
    let q = read_plan(&bytes).expect("unicode fields must survive the round trip");
    assert_plans_equal(&p, &q);
}

#[test]
fn encode_decode_inverse_without_compression() {
    let p = sample_plan();
    let bytes = encode_plan(&p);
    let q = decode_plan(&bytes).expect("decoding an encoding must succeed");
    assert_plans_equal(&p, &q);
}

#[test]
fn written_bytes_are_compressed_not_raw() {
    let p = sample_plan();
    let raw = encode_plan(&p);
    let packed = write_plan(&p);
    assert_ne!(raw, packed);
}

#[test]
fn read_rejects_garbage() {
    assert!(read_plan(&vec![0u8, 1, 2, 3, 4, 5, 6, 7, 8, 9]).is_none());
    assert!(read_plan(&Vec::new()).is_none());
}

#[test]
fn decode_rejects_truncated_encoding() {
    let p = sample_plan();
    let mut bytes = encode_plan(&p);
    bytes.pop();
    assert!(decode_plan(&bytes).is_none());
}

#[test]
fn decode_rejects_trailing_bytes() {
    let p = sample_plan();
    let mut bytes = encode_plan(&p);
    bytes.push(0);
    assert!(decode_plan(&bytes).is_none());
}
