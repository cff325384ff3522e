//! The payload of a frame: the sender's tag, one delimiter byte, the body.

use vstd::prelude::*;
use vstd::slice::slice_subrange;
use vstd::slice::slice_to_vec;
use vstd::utf8::decode_utf8;
use vstd::utf8::valid_utf8;
use crate::text::lossy_text;
use crate::text::spec_lossy_text;

verus! {

/// The byte that parts the sender's tag from the body.
pub const DELIMITER: u8 = 0;

/// One relayed message. Tag and body are bytes; that they are text is a
/// convention that nothing here enforces.
#[derive(Debug)]
pub struct Message {
    /// The name the sender chose for itself. Nothing checks it.
    pub sender_tag: Vec<u8>,
    /// What the sender wrote.
    pub body: Vec<u8>,
}

impl View for Message {
    type V = (Seq<u8>, Seq<u8>);

    /// The tag and the body.
    open spec fn view(&self) -> (Seq<u8>, Seq<u8>) {
        (self.sender_tag@, self.body@)
    }
}

/// A payload without a delimiter byte.
#[derive(Debug, Clone, Copy, PartialEq, Eq, Structural)]
pub struct MalformedFrame;

/// Why a tag and a body were not put together.
#[derive(Debug, Clone, Copy, PartialEq, Eq, Structural)]
pub enum ComposeError {
    /// The tag is empty.
    EmptyTag,
    /// The tag holds the delimiter byte.
    DelimiterInTag,
}

/// The payload for a tag and a body.
pub open spec fn spec_compose(tag: Seq<u8>, body: Seq<u8>) -> Seq<u8> {
    tag + seq![DELIMITER] + body
}

/// Whether the first delimiter byte of `payload` stands at `i`.
pub open spec fn delimiter_at(payload: Seq<u8>, i: int) -> bool {
    &&& 0 <= i < payload.len()
    &&& payload[i] == DELIMITER
    &&& forall|j: int| 0 <= j < i ==> payload[j] != DELIMITER
}

/// Tag and body of `payload`: what stands before its first delimiter byte
/// and what stands after it. `None` where it has no delimiter byte.
pub open spec fn spec_parse(payload: Seq<u8>) -> Option<(Seq<u8>, Seq<u8>)> {
    if exists|i: int| delimiter_at(payload, i) {
        let i = choose|i: int| delimiter_at(payload, i);
        Some((payload.subrange(0, i), payload.subrange(i + 1, payload.len() as int)))
    } else {
        None
    }
}

/// The first delimiter byte stands at one place only.
pub proof fn lemma_delimiter_unique(payload: Seq<u8>, i: int, k: int)
    requires
        delimiter_at(payload, i),
        delimiter_at(payload, k),
    ensures
        i == k,
{
    if i < k {
        assert(payload[i] != DELIMITER);
    } else if k < i {
        assert(payload[k] != DELIMITER);
    }
}

/// A payload with its first delimiter at `i` parses into what stands on
/// either side of `i`.
pub proof fn lemma_parse_at(payload: Seq<u8>, i: int)
    requires
        delimiter_at(payload, i),
    ensures
        spec_parse(payload) == Some(
            (payload.subrange(0, i), payload.subrange(i + 1, payload.len() as int)),
        ),
{
    let k = choose|k: int| delimiter_at(payload, k);
    lemma_delimiter_unique(payload, i, k);
}

/// Some delimiter byte in a payload means that there is a first one.
proof fn lemma_first_delimiter_exists(payload: Seq<u8>, k: int)
    requires
        0 <= k < payload.len(),
        payload[k] == DELIMITER,
    ensures
        exists|i: int| delimiter_at(payload, i),
    decreases k,
{
    if exists|j: int| 0 <= j < k && payload[j] == DELIMITER {
        let j = choose|j: int| 0 <= j < k && payload[j] == DELIMITER;
        lemma_first_delimiter_exists(payload, j);
    } else {
        assert(delimiter_at(payload, k));
    }
}

/// A payload is malformed exactly when it holds no delimiter byte.
pub proof fn lemma_malformed_iff_no_delimiter(payload: Seq<u8>)
    ensures
        spec_parse(payload) is None <==> !payload.contains(DELIMITER),
{
    if payload.contains(DELIMITER) {
        let k = choose|k: int| 0 <= k < payload.len() && payload[k] == DELIMITER;
        lemma_first_delimiter_exists(payload, k);
    }
    if exists|i: int| delimiter_at(payload, i) {
        let i = choose|i: int| delimiter_at(payload, i);
        assert(payload[i] == DELIMITER);
    }
}

/// Parsing undoes composing: a tag without a delimiter byte and any body
/// come back from the payload made of them.
pub proof fn lemma_parse_composed(tag: Seq<u8>, body: Seq<u8>)
    requires
        !tag.contains(DELIMITER),
    ensures
        spec_parse(spec_compose(tag, body)) == Some((tag, body)),
{
    let payload = spec_compose(tag, body);
    let i = tag.len() as int;
    assert forall|j: int| 0 <= j < i implies payload[j] != DELIMITER by {
        assert(payload[j] == tag[j]);
        assert(tag.contains(tag[j]));
    }
    assert(delimiter_at(payload, i));
    lemma_parse_at(payload, i);
    assert(payload.subrange(0, i) =~= tag);
    assert(payload.subrange(i + 1, payload.len() as int) =~= body);
}

/// Composing undoes parsing: a payload is made of the tag and the body that
/// it parses into, and that tag holds no delimiter byte.
pub proof fn lemma_compose_parsed(payload: Seq<u8>)
    requires
        spec_parse(payload) is Some,
    ensures
        ({
            let (tag, body) = spec_parse(payload).unwrap();
            payload == spec_compose(tag, body) && !tag.contains(DELIMITER)
        }),
{
    let i = choose|i: int| delimiter_at(payload, i);
    let (tag, body) = spec_parse(payload).unwrap();
    assert(payload =~= spec_compose(tag, body));
    if tag.contains(DELIMITER) {
        let j = choose|j: int| 0 <= j < tag.len() && tag[j] == DELIMITER;
        assert(payload[j] == DELIMITER);
    }
}

/// Index of the first delimiter byte of `payload`, if it has one.
pub fn find_delimiter(payload: &[u8]) -> (r: Option<usize>)
    ensures
        match r {
            Some(i) => delimiter_at(payload@, i as int),
            None => !payload@.contains(DELIMITER),
        },
{
    let mut i: usize = 0;
    while i < payload.len()
        invariant
            i <= payload@.len(),
            forall|j: int| 0 <= j < i ==> payload@[j] != DELIMITER,
        decreases payload@.len() - i,
    {
        if payload[i] == DELIMITER {
            return Some(i);
        }
        i += 1;
    }
    None
}

/// Puts a tag and a body together into a payload. The tag must hold at
/// least one byte and no delimiter byte.
pub fn compose(tag: &[u8], body: &[u8]) -> (r: Result<Vec<u8>, ComposeError>)
    ensures
        match r {
            Ok(payload) => tag@.len() > 0 && !tag@.contains(DELIMITER) && payload@
                == spec_compose(tag@, body@),
            Err(ComposeError::EmptyTag) => tag@.len() == 0,
            Err(ComposeError::DelimiterInTag) => tag@.len() > 0 && tag@.contains(DELIMITER),
        },
{
    if tag.len() == 0 {
        return Err(ComposeError::EmptyTag);
    }
    match find_delimiter(tag) {
        Some(i) => {
            assert(tag@[i as int] == DELIMITER);
            Err(ComposeError::DelimiterInTag)
        },
        None => {
            let mut payload: Vec<u8> = slice_to_vec(tag);
            payload.push(DELIMITER);
            payload.extend_from_slice(body);
            assert(payload@ =~= spec_compose(tag@, body@));
            Ok(payload)
        },
    }
}

/// Splits a payload at its first delimiter byte into tag and body.
pub fn parse(payload: &[u8]) -> (r: Result<Message, MalformedFrame>)
    ensures
        match r {
            Ok(m) => spec_parse(payload@) == Some((m.sender_tag@, m.body@)),
            Err(_) => spec_parse(payload@) is None,
        },
{
    match find_delimiter(payload) {
        Some(i) => {
            proof {
                lemma_parse_at(payload@, i as int);
            }
            let end: usize = payload.len();
            let sender_tag: Vec<u8> = slice_to_vec(slice_subrange(payload, 0, i));
            let body: Vec<u8> = slice_to_vec(slice_subrange(payload, i + 1, end));
            Ok(Message { sender_tag, body })
        },
        None => {
            proof {
                lemma_malformed_iff_no_delimiter(payload@);
            }
            Err(MalformedFrame)
        },
    }
}

impl Message {
    /// The payload that carries this message.
    pub fn to_payload(&self) -> (r: Result<Vec<u8>, ComposeError>)
        ensures
            match r {
                Ok(payload) => self.sender_tag@.len() > 0 && !self.sender_tag@.contains(DELIMITER)
                    && payload@ == spec_compose(self.sender_tag@, self.body@),
                Err(ComposeError::EmptyTag) => self.sender_tag@.len() == 0,
                Err(ComposeError::DelimiterInTag) => self.sender_tag@.len() > 0
                    && self.sender_tag@.contains(DELIMITER),
            },
    {
        compose(self.sender_tag.as_slice(), self.body.as_slice())
    }

    /// Whether a reader has something to show for this message: both the
    /// tag and the body hold at least one byte.
    pub fn is_displayable(&self) -> (r: bool)
        ensures
            r == (self.sender_tag@.len() > 0 && self.body@.len() > 0),
    {
        self.sender_tag.len() > 0 && self.body.len() > 0
    }

    /// The tag as text, with U+FFFD in place of what is no UTF-8.
    pub fn tag_text(&self) -> (text: String)
        ensures
            text@ == spec_lossy_text(self.sender_tag@),
            valid_utf8(self.sender_tag@) ==> text@ == decode_utf8(self.sender_tag@),
    {
        lossy_text(self.sender_tag.as_slice())
    }

    /// The body as text, with U+FFFD in place of what is no UTF-8.
    pub fn body_text(&self) -> (text: String)
        ensures
            text@ == spec_lossy_text(self.body@),
            valid_utf8(self.body@) ==> text@ == decode_utf8(self.body@),
    {
        lossy_text(self.body.as_slice())
    }
}

} // verus!
