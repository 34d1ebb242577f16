//! The DNS query encoder: header, question, and full-message serialization.

use rand::Rng;
use vstd::prelude::*;
use vstd::slice::{slice_subrange, slice_to_vec};
use vstd::string::StringSliceAdditionalSpecFns;

verus! {

/// Record type constant for an address (A) record.
pub const TYPE_A: u16 = 1;

/// Record class constant for the Internet class.
pub const CLASS_IN: u16 = 1;

/// The big-endian two-byte serialization of a 16-bit value:
/// most-significant byte first.
pub open spec fn spec_u16_be(x: u16) -> Seq<u8> {
    seq![(x / 256) as u8, (x % 256) as u8]
}

/// A fixed 12-byte DNS message header: six 16-bit fields, each serialized
/// big-endian in declaration order.
pub struct DNSHeader {
    pub id: u16,
    pub flags: u16,
    pub num_questions: u16,
    pub num_answers: u16,
    pub num_authorities: u16,
    pub num_additionals: u16,
}

/// The serialization of a header: the six fields, big-endian, in order.
pub open spec fn spec_header_bytes(h: DNSHeader) -> Seq<u8> {
    spec_u16_be(h.id) + spec_u16_be(h.flags) + spec_u16_be(h.num_questions)
        + spec_u16_be(h.num_answers) + spec_u16_be(h.num_authorities)
        + spec_u16_be(h.num_additionals)
}

impl DNSHeader {
    /// Serialize the header to its fixed 12-byte wire form.
    pub fn to_bytes(&self) -> (r: Vec<u8>)
        ensures
            r@ == spec_header_bytes(*self),
            r@.len() == 12,
    {
        let mut bytes: Vec<u8> = Vec::new();
        push_u16_be(&mut bytes, self.id);
        push_u16_be(&mut bytes, self.flags);
        push_u16_be(&mut bytes, self.num_questions);
        push_u16_be(&mut bytes, self.num_answers);
        push_u16_be(&mut bytes, self.num_authorities);
        push_u16_be(&mut bytes, self.num_additionals);
        proof {
            assert(bytes@ =~= spec_header_bytes(*self));
        }
        bytes
    }
}

/// The byte that separates labels in a textual domain name: '.'.
pub const DOT: u8 = 46;

/// Index of the first separator byte in `s`, or `s.len()` if there is none.
pub open spec fn first_dot(s: Seq<u8>) -> int
    decreases s.len(),
{
    if s.len() == 0 {
        0
    } else if s[0] == DOT {
        0
    } else {
        1 + first_dot(s.drop_first())
    }
}

pub proof fn lemma_first_dot_bounds(s: Seq<u8>)
    ensures
        0 <= first_dot(s) <= s.len(),
        forall|j: int| 0 <= j < first_dot(s) ==> s[j] != DOT,
        first_dot(s) < s.len() ==> s[first_dot(s)] == DOT,
    decreases s.len(),
{
    if s.len() != 0 && s[0] != DOT {
        lemma_first_dot_bounds(s.drop_first());
        assert forall|j: int| 0 <= j < first_dot(s) implies s[j] != DOT by {
            if j > 0 {
                assert(s.drop_first()[j - 1] != DOT);
            }
        }
    }
}

/// A scan that passed only non-separator bytes and stopped at a separator
/// (or at the end) has found `first_dot`.
pub proof fn lemma_first_dot_agrees(s: Seq<u8>, i: int)
    requires
        0 <= i <= s.len(),
        forall|j: int| 0 <= j < i ==> s[j] != DOT,
        i < s.len() ==> s[i] == DOT,
    ensures
        first_dot(s) == i,
    decreases i,
{
    if i > 0 {
        lemma_first_dot_agrees(s.drop_first(), i - 1);
    }
}

/// The labels of a domain name: the byte sequence split on the separator.
/// The empty name has one empty label; consecutive separators give empty
/// labels, as the textual form does.
pub open spec fn spec_labels(s: Seq<u8>) -> Seq<Seq<u8>>
    decreases s.len(),
{
    let d = first_dot(s);
    if 0 <= d < s.len() {
        seq![s.take(d)] + spec_labels(s.skip(d + 1))
    } else {
        seq![s]
    }
}

/// Every label of the name fits a one-byte length prefix.
pub open spec fn labels_fit(s: Seq<u8>) -> bool {
    forall|i: int| 0 <= i < spec_labels(s).len() ==> #[trigger] spec_labels(s)[i].len() <= 255
}

/// The label encoding of a list of labels: each label prefixed by its
/// length as a single byte.
pub open spec fn spec_encode_labels(ls: Seq<Seq<u8>>) -> Seq<u8>
    decreases ls.len(),
{
    if ls.len() == 0 {
        Seq::empty()
    } else {
        seq![ls[0].len() as u8] + ls[0] + spec_encode_labels(ls.drop_first())
    }
}

/// The wire encoding of a domain name: its labels, each length-prefixed,
/// followed by the zero-length terminating label.
pub open spec fn spec_encode_name(s: Seq<u8>) -> Seq<u8> {
    spec_encode_labels(spec_labels(s)) + seq![0u8]
}

pub proof fn lemma_encode_labels_cons(l: Seq<u8>, ls: Seq<Seq<u8>>)
    ensures
        spec_encode_labels(seq![l] + ls) == seq![l.len() as u8] + l + spec_encode_labels(ls),
{
    let cons = seq![l] + ls;
    assert(cons[0] == l);
    assert(cons.drop_first() =~= ls);
}

/// The total length of the label encoding of `ls`: one length byte plus
/// the label's own bytes, for each label.
pub open spec fn spec_labels_total_len(ls: Seq<Seq<u8>>) -> int
    decreases ls.len(),
{
    if ls.len() == 0 {
        0
    } else {
        ls[0].len() + 1 + spec_labels_total_len(ls.drop_first())
    }
}

pub proof fn lemma_encode_labels_len(ls: Seq<Seq<u8>>)
    ensures
        spec_encode_labels(ls).len() == spec_labels_total_len(ls),
    decreases ls.len(),
{
    if ls.len() > 0 {
        lemma_encode_labels_len(ls.drop_first());
    }
}

/// Law: for a name whose labels each fit a one-byte length prefix, the
/// encoded name's length is the sum over the labels of the label's
/// length plus one, plus one for the terminating zero byte.
pub proof fn lemma_encode_name_len(s: Seq<u8>)
    requires
        labels_fit(s),
    ensures
        spec_encode_name(s).len() == spec_labels_total_len(spec_labels(s)) + 1,
{
    lemma_encode_labels_len(spec_labels(s));
}

/// `spec_labels` unfolded at the first separator (or at the end of the name).
pub proof fn lemma_labels_split(s: Seq<u8>)
    ensures
        spec_labels(s).len() >= 1,
        first_dot(s) == s.len() ==> spec_labels(s) == seq![s],
        first_dot(s) < s.len() ==> spec_labels(s) == seq![s.take(first_dot(s))] + spec_labels(
            s.skip(first_dot(s) + 1),
        ),
{
    lemma_first_dot_bounds(s);
}

/// A name with a separator has labels that all fit their length prefix
/// exactly when its first label does and the rest of the name's do.
pub proof fn lemma_labels_fit_split(s: Seq<u8>)
    requires
        first_dot(s) < s.len(),
    ensures
        labels_fit(s) <==> (first_dot(s) <= 255 && labels_fit(s.skip(first_dot(s) + 1))),
{
    lemma_labels_split(s);
    let d = first_dot(s);
    let tail = s.skip(d + 1);
    if labels_fit(s) {
        assert(spec_labels(s)[0] == s.take(d));
        assert(spec_labels(s)[0].len() <= 255);
        assert forall|i: int| 0 <= i < spec_labels(tail).len() implies #[trigger] spec_labels(
            tail,
        )[i].len() <= 255 by {
            assert(spec_labels(s)[i + 1] == spec_labels(tail)[i]);
            assert(spec_labels(s)[i + 1].len() <= 255);
        }
    }
    if d <= 255 && labels_fit(tail) {
        assert forall|i: int| 0 <= i < spec_labels(s).len() implies #[trigger] spec_labels(
            s,
        )[i].len() <= 255 by {
            if i == 0 {
                assert(spec_labels(s)[0] == s.take(d));
            } else {
                assert(spec_labels(s)[i] == spec_labels(tail)[i - 1]);
                assert(spec_labels(tail)[i - 1].len() <= 255);
            }
        }
    }
}

/// Scan to the first separator byte of `s`, or to its end if it has none.
fn find_dot(s: &[u8]) -> (i: usize)
    ensures
        i as int == first_dot(s@),
{
    let n: usize = s.len();
    let mut i: usize = 0;
    while i < n && s[i] != DOT
        invariant
            0 <= i <= n,
            n == s@.len(),
            forall|j: int| 0 <= j < i ==> s@[j] != DOT,
        decreases n - i,
    {
        i += 1;
    }
    proof {
        lemma_first_dot_agrees(s@, i as int);
    }
    i
}

/// Emit the length-prefixed labels of `s` (without the terminating zero
/// byte): for each label, one length byte followed by the label's bytes.
fn encode_labels(s: &[u8]) -> (r: Vec<u8>)
    requires
        labels_fit(s@),
    ensures
        r@ == spec_encode_labels(spec_labels(s@)),
    decreases s@.len(),
{
    let n: usize = s.len();
    let i = find_dot(s);
    proof {
        lemma_first_dot_bounds(s@);
        lemma_labels_split(s@);
        assert(spec_labels(s@)[0].len() <= 255);
    }
    let mut r: Vec<u8> = Vec::new();
    r.push(i as u8);
    let mut j: usize = 0;
    while j < i
        invariant
            0 <= j <= i <= n,
            n == s@.len(),
            i <= 255,
            r@ == seq![i as u8] + s@.subrange(0, j as int),
        decreases i - j,
    {
        r.push(s[j]);
        proof {
            assert(r@ =~= seq![i as u8] + s@.subrange(0, j + 1));
        }
        j += 1;
    }
    if i < n {
        proof {
            assert(s@.subrange(i + 1, n as int) =~= s@.skip(i + 1));
            lemma_labels_fit_split(s@);
        }
        let mut rest = encode_labels(slice_subrange(s, i + 1, n));
        r.append(&mut rest);
        proof {
            let d = first_dot(s@);
            let head = s@.take(d);
            lemma_encode_labels_cons(head, spec_labels(s@.skip(d + 1)));
            assert(head =~= s@.subrange(0, i as int));
            assert(r@ =~= spec_encode_labels(spec_labels(s@)));
        }
    } else {
        proof {
            assert(seq![s@].drop_first() =~= Seq::<Seq<u8>>::empty());
            assert(spec_encode_labels(Seq::<Seq<u8>>::empty()) =~= Seq::<u8>::empty());
            assert(s@.subrange(0, i as int) =~= s@);
            assert(r@ =~= spec_encode_labels(spec_labels(s@)));
        }
    }
    r
}

/// Decide whether every label of `s` fits a one-byte length prefix.
fn labels_fit_bytes(s: &[u8]) -> (b: bool)
    ensures
        b == labels_fit(s@),
    decreases s@.len(),
{
    let n: usize = s.len();
    let i = find_dot(s);
    proof {
        lemma_first_dot_bounds(s@);
        lemma_labels_split(s@);
    }
    if i == n {
        proof {
            if n <= 255 {
                assert forall|k: int| 0 <= k < spec_labels(s@).len() implies #[trigger] spec_labels(
                    s@,
                )[k].len() <= 255 by {
                    assert(spec_labels(s@)[k] == s@);
                }
            } else {
                assert(spec_labels(s@)[0].len() > 255);
            }
        }
        n <= 255
    } else {
        proof {
            lemma_labels_fit_split(s@);
            assert(s@.subrange(i + 1, n as int) =~= s@.skip(i + 1));
        }
        if i > 255 {
            false
        } else {
            labels_fit_bytes(slice_subrange(s, i + 1, n))
        }
    }
}

/// Report whether `domain_name` meets the encoder's documented
/// precondition: every dot-separated label's byte length fits the
/// one-byte length prefix of the wire format.
pub fn name_labels_fit(domain_name: &str) -> (b: bool)
    ensures
        b == labels_fit(domain_name.spec_bytes()),
{
    labels_fit_bytes(domain_name.as_bytes())
}

/// Boundary law: the empty name splits into one empty label, so it
/// encodes to that label's zero length prefix followed by the
/// terminating zero byte.
pub proof fn lemma_encode_name_empty()
    ensures
        spec_encode_name(Seq::<u8>::empty()) == seq![0u8, 0u8],
{
    let e = Seq::<u8>::empty();
    lemma_labels_split(e);
    assert(seq![e].drop_first() =~= Seq::<Seq<u8>>::empty());
    assert(spec_encode_labels(Seq::<Seq<u8>>::empty()) =~= Seq::<u8>::empty());
    assert(spec_encode_name(e) =~= seq![0u8, 0u8]);
}

/// Append the big-endian bytes of a 16-bit value to a buffer.
fn push_u16_be(bytes: &mut Vec<u8>, x: u16)
    ensures
        final(bytes)@ == old(bytes)@ + spec_u16_be(x),
{
    bytes.push((x / 256) as u8);
    bytes.push((x % 256) as u8);
    proof {
        assert(bytes@ =~= old(bytes)@ + spec_u16_be(x));
    }
}

/// A single question record: the label-encoded name and the fixed record
/// type and class.
pub struct DNSQuestion {
    pub name: Vec<u8>,
    pub type_: u16,
    pub class_: u16,
}

/// The serialization of a question: the encoded name followed by the
/// big-endian record type and record class.
pub open spec fn spec_question_bytes(name: Seq<u8>, type_: u16, class_: u16) -> Seq<u8> {
    name + spec_u16_be(type_) + spec_u16_be(class_)
}

impl DNSQuestion {
    /// Build the question for an address-record query on `domain_name`.
    pub fn new(domain_name: &str) -> (q: Self)
        requires
            labels_fit(domain_name.spec_bytes()),
        ensures
            q.name@ == spec_encode_name(domain_name.spec_bytes()),
            q.type_ == TYPE_A,
            q.class_ == CLASS_IN,
    {
        let encoded = DNSQuestion::encode_domain_name(domain_name);
        DNSQuestion { name: encoded, type_: TYPE_A, class_: CLASS_IN }
    }

    /// Encode a domain name as length-prefixed labels with a terminating
    /// zero byte. The name is split on dots; each label must fit its
    /// one-byte length prefix.
    pub fn encode_domain_name(domain_name: &str) -> (r: Vec<u8>)
        requires
            labels_fit(domain_name.spec_bytes()),
        ensures
            r@ == spec_encode_name(domain_name.spec_bytes()),
    {
        let bytes: &[u8] = domain_name.as_bytes();
        let mut encoded = encode_labels(bytes);
        encoded.push(0);
        encoded
    }

    /// Serialize the question to its wire form.
    pub fn to_bytes(&self) -> (r: Vec<u8>)
        ensures
            r@ == spec_question_bytes(self.name@, self.type_, self.class_),
    {
        let mut bytes: Vec<u8> = slice_to_vec(self.name.as_slice());
        push_u16_be(&mut bytes, self.type_);
        push_u16_be(&mut bytes, self.class_);
        bytes
    }
}

/// The header flags value with only the "recursion desired" bit set.
pub const FLAG_RECURSION_DESIRED: u16 = 0x0100;

/// The complete query message for `name` under transaction id `id`:
/// the 12-byte header (recursion desired, one question, no other records)
/// followed by the question for an Internet-class address record.
pub open spec fn spec_query_bytes(id: u16, name: Seq<u8>) -> Seq<u8> {
    spec_header_bytes(
        DNSHeader {
            id,
            flags: FLAG_RECURSION_DESIRED,
            num_questions: 1,
            num_answers: 0,
            num_authorities: 0,
            num_additionals: 0,
        },
    ) + spec_question_bytes(spec_encode_name(name), TYPE_A, CLASS_IN)
}

/// The fixed parts of a query's layout: its length, the ten header bytes
/// after the id, and the question section, none of which depend on the id.
pub proof fn lemma_query_layout(id: u16, name: Seq<u8>)
    ensures
        spec_query_bytes(id, name).len() == 12 + spec_encode_name(name).len() + 4,
        spec_query_bytes(id, name).subrange(0, 2) == spec_u16_be(id),
        spec_query_bytes(id, name).subrange(2, 12) == seq![
            0x01u8,
            0x00u8,
            0x00u8,
            0x01u8,
            0x00u8,
            0x00u8,
            0x00u8,
            0x00u8,
            0x00u8,
            0x00u8,
        ],
        spec_query_bytes(id, name).skip(12) == spec_encode_name(name) + seq![
            0x00u8,
            0x01u8,
            0x00u8,
            0x01u8,
        ],
{
    let q = spec_query_bytes(id, name);
    assert(q.subrange(0, 2) =~= spec_u16_be(id));
    assert(q.subrange(2, 12) =~= seq![
        0x01u8,
        0x00u8,
        0x00u8,
        0x01u8,
        0x00u8,
        0x00u8,
        0x00u8,
        0x00u8,
        0x00u8,
        0x00u8,
    ]);
    assert(q.skip(12) =~= spec_encode_name(name) + seq![0x00u8, 0x01u8, 0x00u8, 0x01u8]);
}

/// Law: two queries built for the same name agree on every byte after
/// the two-byte transaction id, whatever ids were drawn; only the id
/// field varies between calls.
pub proof fn lemma_query_varies_only_in_id(id1: u16, id2: u16, name: Seq<u8>)
    ensures
        spec_query_bytes(id1, name).skip(2) == spec_query_bytes(id2, name).skip(2),
{
    assert(spec_query_bytes(id1, name).skip(2) =~= spec_query_bytes(id2, name).skip(2));
}

/// Draw a transaction id uniformly from the full 16-bit range.
///
/// Relies on rand::thread_rng and rand::Rng::gen_range over 0..=65535.
/// The result is random, so nothing is promised of its value beyond its
/// type.
#[verifier::external_body]
fn random_id() -> u16 {
    rand::thread_rng().gen_range(0u16..=65535u16)
}

/// A one-shot builder for a complete query message.
pub struct DNSQuery {
    _header: DNSHeader,
    _question: DNSQuestion,
}

impl DNSQuery {
    /// Build the full query message for `domain_name` with a freshly drawn
    /// random transaction id. Everything but the two id bytes is pinned
    /// down: the fixed header tail, and the question section.
    pub fn build_query(domain_name: &str) -> (r: Vec<u8>)
        requires
            labels_fit(domain_name.spec_bytes()),
        ensures
            exists|id: u16| r@ == spec_query_bytes(id, domain_name.spec_bytes()),
            r@.len() == 12 + spec_encode_name(domain_name.spec_bytes()).len() + 4,
            r@.subrange(2, 12) == seq![
                0x01u8,
                0x00u8,
                0x00u8,
                0x01u8,
                0x00u8,
                0x00u8,
                0x00u8,
                0x00u8,
                0x00u8,
                0x00u8,
            ],
            r@.skip(12) == spec_encode_name(domain_name.spec_bytes()) + seq![
                0x00u8,
                0x01u8,
                0x00u8,
                0x01u8,
            ],
    {
        let id = random_id();
        let r = DNSQuery::build_query_with_id(domain_name, id);
        proof {
            lemma_query_layout(id, domain_name.spec_bytes());
        }
        r
    }

    /// Build the query message for `domain_name` under the given
    /// transaction id: deterministic, for callers that inject their own
    /// id source.
    pub fn build_query_with_id(domain_name: &str, id: u16) -> (r: Vec<u8>)
        requires
            labels_fit(domain_name.spec_bytes()),
        ensures
            r@ == spec_query_bytes(id, domain_name.spec_bytes()),
    {
        let header = DNSHeader {
            id,
            flags: FLAG_RECURSION_DESIRED,
            num_questions: 1,
            num_answers: 0,
            num_authorities: 0,
            num_additionals: 0,
        };
        let question = DNSQuestion::new(domain_name);
        let mut query = header.to_bytes();
        let mut question_bytes = question.to_bytes();
        query.append(&mut question_bytes);
        proof {
            assert(query@ =~= spec_query_bytes(id, domain_name.spec_bytes()));
        }
        query
    }
}

} // verus!
