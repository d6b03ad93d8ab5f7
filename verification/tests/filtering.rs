//! Blocklist, cache and responder tests: wildcard matching, TTL decay and
//! eviction, and the per-request pipeline.

use nodns::blocklist::{parse_entry, Blocklist};
use nodns::cache::Cache;
use nodns::compression::LabelTree;
use nodns::datagram::Datagram;
use nodns::header::{Header, RCODE};
use nodns::name::Name;
use nodns::question::Question;
use nodns::resource_record::ResourceRecord;
use nodns::responder::{
    empty_answer, get_blocked_answer, get_cached_answer, process_upstream_reply, respond_local,
    ResponderAction,
};

fn name_labels(s: &str) -> Vec<nodns::label::Label> {
    let name = Name::from(s);
    name.as_labels().clone()
}

fn add_entry(blocklist: &mut Blocklist, line: &str) {
    let (labels, wildcard) = parse_entry(line).expect("entry must parse");
    blocklist.add_element(labels, wildcard);
}

#[test]
fn parse_entry_reads_lines() {
    let (labels, wildcard) = parse_entry("youtube.com").unwrap();
    assert!(!wildcard);
    assert_eq!(labels.len(), 2);
    assert_eq!(labels[0].as_str(), "youtube".to_string());
    assert_eq!(labels[1].as_str(), "com".to_string());

    let (labels, wildcard) = parse_entry("*.test.ca").unwrap();
    assert!(wildcard);
    assert_eq!(labels.len(), 2);
    assert_eq!(labels[0].as_str(), "test".to_string());
    assert_eq!(labels[1].as_str(), "ca".to_string());

    // an underscore is not a valid label byte
    assert!(parse_entry("bad_label.com").is_none());
    // an empty piece is not a valid label
    assert!(parse_entry("").is_none());
    assert!(parse_entry("a..b").is_none());
    // digits alone are not a valid label
    assert!(parse_entry("123.com").is_none());
}

#[test]
fn blocklist_wildcard_scenario() {
    let mut blocklist = Blocklist::new();
    add_entry(&mut blocklist, "youtube.com");
    add_entry(&mut blocklist, "*.test.ca");
    add_entry(&mut blocklist, "www.example.com");

    assert!(blocklist.contains(&name_labels("youtube.com")));
    assert!(!blocklist.contains(&name_labels("www.google.com")));
    assert!(blocklist.contains(&name_labels("test2.test.ca")));
    // a wildcard does not match the bare suffix
    assert!(!blocklist.contains(&name_labels("test.ca")));
    assert!(blocklist.contains(&name_labels("www.example.com")));
    assert!(!blocklist.contains(&name_labels("test.ca.google.com")));
    // a deeper descendant of the wildcard suffix is blocked too
    assert!(blocklist.contains(&name_labels("a.b.test.ca")));
    // an exact entry does not block its descendants
    assert!(!blocklist.contains(&name_labels("sub.youtube.com")));
}

#[test]
fn blocklist_folds_case() {
    let mut blocklist = Blocklist::new();
    add_entry(&mut blocklist, "www.eXample.com");
    assert!(blocklist.contains(&name_labels("WWW.example.COM")));
    assert!(blocklist.contains(&name_labels("www.example.com")));
    assert!(!blocklist.contains(&name_labels("example.com")));
}

fn a_record(name: &str, ttl: u32, rdata: [u8; 4]) -> ResourceRecord {
    let mut answer_byte = Vec::new();
    let mut tree = LabelTree::default();
    Name::from(name).serialize(&mut answer_byte, &mut tree);
    answer_byte.extend_from_slice(&[0, 1, 0, 1]);
    answer_byte.extend_from_slice(&ttl.to_be_bytes());
    answer_byte.extend_from_slice(&[0, 4]);
    answer_byte.extend_from_slice(&rdata);
    let (answer, _) = ResourceRecord::unserialize(&answer_byte, 0).unwrap();
    answer
}

#[test]
fn test_cache_basic() {
    let mut cache = Cache::new();
    let question = Question {
        qname: Name::from("google.com"),
        qtype: 1,
        qclass: 1,
    };
    let mut answer_byte = Vec::new();
    let mut tree = LabelTree::default();
    let name = Name::from("google.com");
    name.serialize(&mut answer_byte, &mut tree);
    answer_byte.extend_from_slice(&[0, 1, 0, 1, 0, 0, 0, 10, 0, 4, 8, 8, 8, 8]);
    let (answer, _) = ResourceRecord::unserialize(&answer_byte, 0).unwrap();
    cache.insert(&question, answer.clone(), 0);

    let reply = cache.get(&question, 0);
    assert_eq!(reply.unwrap(), answer);

    let question = Question {
        qname: Name::from("bing.com"),
        qtype: 1,
        qclass: 1,
    };
    let reply = cache.get(&question, 0);
    assert!(reply.is_none());
}

#[test]
fn test_cache_timeout() {
    let mut cache = Cache::new();
    let question = Question {
        qname: Name::from("google.com"),
        qtype: 1,
        qclass: 1,
    };
    let answer = a_record("google.com", 1, [8, 8, 8, 8]);
    cache.insert(&question, answer, 0);
    let reply = cache.get(&question, 500);
    assert!(reply.is_some());

    // 1010 ms after insertion the one-second TTL has run out
    let reply = cache.get(&question, 1010);
    assert!(reply.is_none());
    // and the entry was evicted: a later read within the old TTL still misses
    let reply = cache.get(&question, 1);
    assert!(reply.is_none());
}

#[test]
fn cache_decays_ttl_by_elapsed_seconds() {
    let mut cache = Cache::new();
    let question = Question {
        qname: Name::from("example.org"),
        qtype: 1,
        qclass: 1,
    };
    let answer = a_record("example.org", 10, [1, 2, 3, 4]);
    cache.insert(&question, answer, 0);
    // immediately after insertion the full TTL is returned
    assert_eq!(cache.get(&question, 0).unwrap().get_ttl(), 10);
    // three and a bit seconds later, three whole seconds have been deducted
    assert_eq!(cache.get(&question, 3200).unwrap().get_ttl(), 7);
    // at exactly the TTL the entry is gone
    assert!(cache.get(&question, 10000).is_none());
}

#[test]
fn cache_insert_overwrites() {
    let mut cache = Cache::new();
    let question = Question {
        qname: Name::from("example.org"),
        qtype: 1,
        qclass: 1,
    };
    cache.insert(&question, a_record("example.org", 10, [1, 1, 1, 1]), 0);
    cache.insert(&question, a_record("example.org", 20, [2, 2, 2, 2]), 1000);
    let got = cache.get(&question, 1000).unwrap();
    assert_eq!(got.get_ttl(), 20);
    assert_eq!(got.get_rdata().as_slice(), [2, 2, 2, 2]);
}

fn query_bytes(name: &str, id: u16, qtype: u16) -> Vec<u8> {
    let mut header = Header::new_question();
    header.set_id(id);
    let question = Question {
        qname: Name::from(name),
        qtype,
        qclass: 1,
    };
    let datagram = Datagram {
        header,
        questions: vec![question],
        answers: Vec::new(),
        authorities: Vec::new(),
        additionals: Vec::new(),
    };
    datagram.serialize()
}

#[test]
fn blocked_query_gets_nxdomain() {
    let mut blocklist = Blocklist::new();
    add_entry(&mut blocklist, "*.tracker.net");
    let mut cache = Cache::new();

    let request_bytes = query_bytes("ads.tracker.net", 0x1234, 1);
    let request = Datagram::unserialize(&request_bytes).unwrap();
    let action = respond_local(&request, &blocklist, &mut cache, 0);
    let reply = match action {
        ResponderAction::Reply(d) => d,
        _ => panic!("a blocked question must be answered, not forwarded"),
    };
    assert_eq!(reply.header.get_id(), 0x1234);
    assert!(!reply.header.is_question());
    assert_eq!(reply.header.get_rcode(), RCODE::NXDomain);
    assert_eq!(reply.header.answer_count(), 0);
    assert_eq!(reply.questions.len(), 1);
    assert_eq!(
        reply.questions[0].qname.get_string(),
        "ads.tracker.net".to_string()
    );
    // the reply encodes cleanly
    let encoded = reply.serialize();
    assert!(encoded.len() >= 12);
}

#[test]
fn block_wins_over_cache() {
    let mut blocklist = Blocklist::new();
    add_entry(&mut blocklist, "ads.tracker.net");
    let mut cache = Cache::new();
    let question = Question {
        qname: Name::from("ads.tracker.net"),
        qtype: 1,
        qclass: 1,
    };
    cache.insert(&question, a_record("ads.tracker.net", 100, [9, 9, 9, 9]), 0);

    let request_bytes = query_bytes("ads.tracker.net", 7, 1);
    let request = Datagram::unserialize(&request_bytes).unwrap();
    match respond_local(&request, &blocklist, &mut cache, 0) {
        ResponderAction::Reply(reply) => {
            assert_eq!(reply.header.get_rcode(), RCODE::NXDomain);
            assert_eq!(reply.answers.len(), 0);
        },
        _ => panic!("a blocked question must be answered"),
    }
}

#[test]
fn unsupported_type_is_forwarded() {
    let blocklist = Blocklist::new();
    let mut cache = Cache::new();
    // a TXT question (type 16) skips blocklist and cache
    let request_bytes = query_bytes("example.org", 9, 16);
    let request = Datagram::unserialize(&request_bytes).unwrap();
    match respond_local(&request, &blocklist, &mut cache, 0) {
        ResponderAction::Forward => {},
        _ => panic!("unsupported types must be forwarded"),
    }
}

#[test]
fn upstream_reply_populates_cache() {
    let mut cache = Cache::new();
    let blocklist = Blocklist::new();

    // not blocked, not cached: the request is forwarded
    let request_bytes = query_bytes("example.org", 0x77, 1);
    let request = Datagram::unserialize(&request_bytes).unwrap();
    match respond_local(&request, &blocklist, &mut cache, 0) {
        ResponderAction::Forward => {},
        _ => panic!("a miss must be forwarded"),
    }

    // the upstream reply carries one answer with a five-minute TTL
    let mut header = Header::new_reply();
    header.set_id(0x77);
    header.set_answer_count(1);
    let reply = Datagram {
        header,
        questions: vec![Question {
            qname: Name::from("example.org"),
            qtype: 1,
            qclass: 1,
        }],
        answers: vec![ResourceRecord {
            name: Name::from("example.org"),
            rtype: 1,
            rclass: 1,
            ttl: 300,
            rdata: vec![93, 184, 216, 34],
        }],
        authorities: Vec::new(),
        additionals: Vec::new(),
    };
    let reply_bytes = reply.serialize();
    let decoded = process_upstream_reply(&reply_bytes, &mut cache, 1000).unwrap();
    assert_eq!(decoded.answers.len(), 1);

    // a later identical request is served from the cache with a decayed TTL
    let request = Datagram::unserialize(&request_bytes).unwrap();
    match respond_local(&request, &blocklist, &mut cache, 11000) {
        ResponderAction::Reply(cached) => {
            assert_eq!(cached.header.answer_count(), 1);
            assert_eq!(cached.answers[0].get_ttl(), 290);
            assert!(cached.answers[0].get_ttl() < 300);
            assert_eq!(cached.answers[0].get_rdata().as_slice(), [93, 184, 216, 34]);
        },
        _ => panic!("the populated cache must answer"),
    }
}

#[test]
fn empty_answer_echoes_the_question() {
    let request_bytes = query_bytes("example.org", 0xBEEF, 1);
    let request = Datagram::unserialize(&request_bytes).unwrap();
    let reply = empty_answer(&request);
    assert_eq!(reply.header.get_id(), 0xBEEF);
    assert!(!reply.header.is_question());
    assert!(reply.header.is_recursion_available());
    assert_eq!(reply.header.get_rcode(), RCODE::NXDomain);
    assert_eq!(reply.header.question_count(), 1);
    assert_eq!(reply.header.answer_count(), 0);
    assert_eq!(reply.questions.len(), 1);
    assert!(reply.answers.is_empty());
}

#[test]
fn blocked_and_cached_helpers_agree_with_pipeline() {
    let mut blocklist = Blocklist::new();
    add_entry(&mut blocklist, "youtube.com");
    let mut cache = Cache::new();
    let request_bytes = query_bytes("youtube.com", 3, 1);
    let request = Datagram::unserialize(&request_bytes).unwrap();
    assert!(get_blocked_answer(&request, &blocklist).is_some());

    let request_bytes = query_bytes("other.org", 4, 1);
    let request = Datagram::unserialize(&request_bytes).unwrap();
    assert!(get_blocked_answer(&request, &blocklist).is_none());
    assert!(get_cached_answer(&request, &mut cache, 0).is_none());
}
