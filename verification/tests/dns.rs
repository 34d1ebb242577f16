use dns_query::dns::{name_labels_fit, DNSHeader, DNSQuery, DNSQuestion, CLASS_IN, TYPE_A};

#[test]
fn test_encode_dns_name_with_new() {
    let question = DNSQuestion::new("www.example.com");
    let expected_name = vec![
        3, b'w', b'w', b'w', 7, b'e', b'x', b'a', b'm', b'p', b'l', b'e', 3, b'c', b'o', b'm', 0,
    ];
    assert_eq!(question.name, expected_name);
}

#[test]
fn test_encode_dns_name() {
    let encoded = DNSQuestion::encode_domain_name("www.example.com");
    let expected_name = vec![
        3, b'w', b'w', b'w', 7, b'e', b'x', b'a', b'm', b'p', b'l', b'e', 3, b'c', b'o', b'm', 0,
    ];
    assert_eq!(encoded, expected_name);
}

#[test]
fn test_header_to_bytes() {
    let header = DNSHeader {
        id: 0x1234,
        flags: 0x0100,
        num_questions: 1,
        num_answers: 0,
        num_authorities: 0,
        num_additionals: 0,
    };
    let expected_bytes = vec![
        0x12, 0x34, // id
        0x01, 0x00, // flags
        0x00, 0x01, // num_questions
        0x00, 0x00, // num_answers
        0x00, 0x00, // num_authorities
        0x00, 0x00, // num_additionals
    ];
    assert_eq!(header.to_bytes(), expected_bytes);
}

#[test]
fn test_question_to_bytes() {
    let question = DNSQuestion::new("www.example.com");
    let mut expected_bytes = vec![
        3, b'w', b'w', b'w', 7, b'e', b'x', b'a', b'm', b'p', b'l', b'e', 3, b'c', b'o', b'm', 0,
    ];
    expected_bytes.extend(&TYPE_A.to_be_bytes());
    expected_bytes.extend(&CLASS_IN.to_be_bytes());
    assert_eq!(question.to_bytes(), expected_bytes);
}

#[test]
fn test_build_query() {
    let domain_name = "www.example.com";
    let query = DNSQuery::build_query(domain_name);
    // Check if the length of the query is correct
    let encoded_name_len = DNSQuestion::encode_domain_name(domain_name).len();
    let expected_query_len = 12 + encoded_name_len + 4;
    assert_eq!(query.len(), expected_query_len);

    let id = u16::from_be_bytes([query[0], query[1]]);
    let expected_header = [
        id.to_be_bytes()[0],
        id.to_be_bytes()[1], // id
        0x01,
        0x00, // flags
        0x00,
        0x01, // num_questions
        0x00,
        0x00, // num_answers
        0x00,
        0x00, // num_authorities
        0x00,
        0x00, // num_additionals
    ];
    assert_eq!(&query[..12], &expected_header[..]);

    // Check the question part
    let mut expected_question = vec![
        3, b'w', b'w', b'w', 7, b'e', b'x', b'a', b'm', b'p', b'l', b'e', 3, b'c', b'o', b'm', 0,
    ];
    expected_question.extend(&TYPE_A.to_be_bytes());
    expected_question.extend(&CLASS_IN.to_be_bytes());
    assert_eq!(&query[12..], &expected_question[..]);
}

#[test]
fn test_encode_empty_name() {
    // The empty name splits into one empty label: a zero length prefix,
    // then the terminator.
    assert_eq!(DNSQuestion::encode_domain_name(""), vec![0, 0]);
}

#[test]
fn test_encode_name_length_formula() {
    // len == sum over labels of (len(label) + 1), plus 1 for the terminator.
    let encoded = DNSQuestion::encode_domain_name("a.bc.def");
    assert_eq!(encoded.len(), (1 + 1) + (2 + 1) + (3 + 1) + 1);
    assert_eq!(encoded, vec![1, b'a', 2, b'b', b'c', 3, b'd', b'e', b'f', 0]);
}

#[test]
fn test_encode_name_empty_labels() {
    // Consecutive dots yield empty labels, encoded as bare zero-length prefixes.
    let encoded = DNSQuestion::encode_domain_name("a..b");
    assert_eq!(encoded, vec![1, b'a', 0, 1, b'b', 0]);
}

#[test]
fn test_encode_name_longest_label() {
    // A 255-byte label is the largest that fits its one-byte length prefix.
    let label = "x".repeat(255);
    let encoded = DNSQuestion::encode_domain_name(&label);
    assert_eq!(encoded.len(), 255 + 2);
    assert_eq!(encoded[0], 255);
    assert!(encoded[1..256].iter().all(|&b| b == b'x'));
    assert_eq!(encoded[256], 0);
}

#[test]
fn test_name_labels_fit() {
    assert!(name_labels_fit("www.example.com"));
    assert!(name_labels_fit(""));
    assert!(name_labels_fit("a..b"));
    assert!(name_labels_fit(&"x".repeat(255)));
    assert!(!name_labels_fit(&"x".repeat(256)));
    let long_middle = format!("www.{}.com", "y".repeat(300));
    assert!(!name_labels_fit(&long_middle));
}

#[test]
fn test_encoding_idempotent() {
    // The pure encoders are deterministic: identical input, identical bytes.
    assert_eq!(
        DNSQuestion::encode_domain_name("news.ycombinator.com"),
        DNSQuestion::encode_domain_name("news.ycombinator.com")
    );
    let header = DNSHeader {
        id: 7,
        flags: 0,
        num_questions: 1,
        num_answers: 2,
        num_authorities: 3,
        num_additionals: 4,
    };
    assert_eq!(header.to_bytes(), header.to_bytes());
}

#[test]
fn test_build_query_varies_only_in_id() {
    // Two queries for the same name may differ only in the first two bytes.
    let q1 = DNSQuery::build_query("example.org");
    let q2 = DNSQuery::build_query("example.org");
    assert_eq!(&q1[2..], &q2[2..]);
}

#[test]
fn test_build_query_fixed_header_tail() {
    // Bytes 2..12 are the same whatever the name or the drawn id.
    let expected = [0x01, 0x00, 0x00, 0x01, 0x00, 0x00, 0x00, 0x00, 0x00, 0x00];
    assert_eq!(&DNSQuery::build_query("example.org")[2..12], &expected[..]);
    assert_eq!(&DNSQuery::build_query("a.b.c.d")[2..12], &expected[..]);
}

#[test]
fn test_build_query_question_section() {
    // Bytes 12.. are the encoded name followed by type 1 and class 1.
    let query = DNSQuery::build_query("example.org");
    let mut expected = DNSQuestion::encode_domain_name("example.org");
    expected.extend([0x00, 0x01, 0x00, 0x01]);
    assert_eq!(&query[12..], &expected[..]);
}

#[test]
fn test_build_query_with_id_exact_bytes() {
    // With an injected id the whole message is pinned down.
    let query = DNSQuery::build_query_with_id("ab.cd", 0xbeef);
    let expected = vec![
        0xbe, 0xef, // id
        0x01, 0x00, // flags: recursion desired
        0x00, 0x01, // num_questions
        0x00, 0x00, // num_answers
        0x00, 0x00, // num_authorities
        0x00, 0x00, // num_additionals
        2, b'a', b'b', 2, b'c', b'd', 0, // name
        0x00, 0x01, // type A
        0x00, 0x01, // class IN
    ];
    assert_eq!(query, expected);
}
