//! Wire framing for the stream channel.
//!
//! One logical stream message is the UTF-8 text `<identity>: <text>`. The
//! reader side splits an inbound frame at its first colon and trims ASCII
//! whitespace from both halves; the relay side prepends `<identity>: ` to a
//! payload before writing it to a recipient. Frames are handled as raw bytes.

use vstd::prelude::*;

verus! {

/// The colon byte that separates the identity prefix from the payload.
pub const COLON: u8 = 58;

/// The space byte that follows the colon in a formatted message.
pub const SPACE: u8 = 32;

/// A byte is ASCII whitespace: tab, line feed, form feed, carriage return or
/// space.
pub open spec fn is_space(b: u8) -> bool {
    b == 9 || b == 10 || b == 12 || b == 13 || b == 32
}

/// Executable mirror of [`is_space`].
pub fn is_space_byte(b: u8) -> (r: bool)
    ensures
        r == is_space(b),
{
    b == 9 || b == 10 || b == 12 || b == 13 || b == 32
}

/// `s` without its leading whitespace.
pub open spec fn trim_front(s: Seq<u8>) -> Seq<u8>
    decreases s.len(),
{
    if s.len() > 0 && is_space(s[0]) {
        trim_front(s.drop_first())
    } else {
        s
    }
}

/// `s` without its trailing whitespace.
pub open spec fn trim_back(s: Seq<u8>) -> Seq<u8>
    decreases s.len(),
{
    if s.len() > 0 && is_space(s.last()) {
        trim_back(s.drop_last())
    } else {
        s
    }
}

/// `s` without leading or trailing whitespace.
pub open spec fn trimmed(s: Seq<u8>) -> Seq<u8> {
    trim_back(trim_front(s))
}

/// Dropping leading whitespace is taking the subrange from the first
/// non-whitespace byte on.
proof fn lemma_trim_front_subrange(s: Seq<u8>, i: int)
    requires
        0 <= i <= s.len(),
        forall|k: int| 0 <= k < i ==> is_space(s[k]),
        i == s.len() || !is_space(s[i]),
    ensures
        trim_front(s) == s.subrange(i, s.len() as int),
    decreases i,
{
    if i == 0 {
        if s.len() > 0 && is_space(s[0]) {
            assert(false);
        }
        assert(s.subrange(0, s.len() as int) =~= s);
    } else {
        let t = s.drop_first();
        assert(forall|k: int| 0 <= k < i - 1 ==> is_space(t[k]));
        lemma_trim_front_subrange(t, i - 1);
        assert(t.subrange(i - 1, t.len() as int) =~= s.subrange(i, s.len() as int));
    }
}

/// Dropping trailing whitespace is taking the subrange up to the last
/// non-whitespace byte.
proof fn lemma_trim_back_subrange(s: Seq<u8>, j: int)
    requires
        0 <= j <= s.len(),
        forall|k: int| j <= k < s.len() ==> is_space(s[k]),
        j == 0 || !is_space(s[j - 1]),
    ensures
        trim_back(s) == s.subrange(0, j),
    decreases s.len() - j,
{
    if j == s.len() {
        if s.len() > 0 && is_space(s.last()) {
            assert(false);
        }
        assert(s.subrange(0, s.len() as int) =~= s);
    } else {
        let t = s.drop_last();
        assert(forall|k: int| j <= k < t.len() ==> is_space(t[k]));
        lemma_trim_back_subrange(t, j);
        assert(t.subrange(0, j) =~= s.subrange(0, j));
    }
}

/// Whether two byte strings hold the same bytes.
pub fn bytes_eq(a: &Vec<u8>, b: &Vec<u8>) -> (r: bool)
    ensures
        r == (a@ == b@),
{
    if a.len() != b.len() {
        return false;
    }
    let mut i: usize = 0;
    while i < a.len()
        invariant
            0 <= i <= a@.len(),
            a@.len() == b@.len(),
            forall|k: int| 0 <= k < i ==> a@[k] == b@[k],
        decreases a@.len() - i,
    {
        if a[i] != b[i] {
            return false;
        }
        i = i + 1;
    }
    proof {
        assert(a@ =~= b@);
    }
    true
}

/// Copy of a byte string.
pub fn clone_bytes(v: &Vec<u8>) -> (r: Vec<u8>)
    ensures
        r@ == v@,
{
    let mut r: Vec<u8> = Vec::new();
    let mut i: usize = 0;
    while i < v.len()
        invariant
            0 <= i <= v@.len(),
            r@ == v@.subrange(0, i as int),
        decreases v@.len() - i,
    {
        r.push(v[i]);
        i = i + 1;
        proof {
            assert(r@ =~= v@.subrange(0, i as int));
        }
    }
    proof {
        assert(r@ =~= v@);
    }
    r
}

/// Copy of `v[from..to]`.
fn copy_range(v: &Vec<u8>, from: usize, to: usize) -> (r: Vec<u8>)
    requires
        from <= to <= v@.len(),
    ensures
        r@ == v@.subrange(from as int, to as int),
{
    let mut r: Vec<u8> = Vec::new();
    let mut i: usize = from;
    while i < to
        invariant
            from <= i <= to <= v@.len(),
            r@ == v@.subrange(from as int, i as int),
        decreases to - i,
    {
        r.push(v[i]);
        i = i + 1;
        proof {
            assert(r@ =~= v@.subrange(from as int, i as int));
        }
    }
    r
}

/// Whether `s` holds a colon anywhere.
pub open spec fn has_colon(s: Seq<u8>) -> bool {
    exists|i: int| 0 <= i < s.len() && s[i] == COLON
}

/// Index of the first colon in `s`; `s.len()` when there is none.
pub open spec fn first_colon(s: Seq<u8>) -> int
    decreases s.len(),
{
    if s.len() == 0 {
        0
    } else if s[0] == COLON {
        0
    } else {
        1 + first_colon(s.drop_first())
    }
}

/// `first_colon` names the first index holding a colon, and `s.len()` exactly
/// when `s` has no colon.
pub proof fn lemma_first_colon(s: Seq<u8>)
    ensures
        0 <= first_colon(s) <= s.len(),
        first_colon(s) < s.len() ==> s[first_colon(s)] == COLON,
        forall|k: int| 0 <= k < first_colon(s) ==> s[k] != COLON,
        (first_colon(s) < s.len()) == has_colon(s),
    decreases s.len(),
{
    if s.len() > 0 && s[0] != COLON {
        let t = s.drop_first();
        lemma_first_colon(t);
        assert(forall|k: int| 0 <= k < first_colon(s) ==> s[k] != COLON) by {
            assert(forall|k: int| 1 <= k < first_colon(s) ==> s[k] == t[k - 1]);
        }
        if first_colon(s) < s.len() {
            assert(s[first_colon(s)] == t[first_colon(t)]);
        } else {
            assert forall|i: int| 0 <= i < s.len() implies s[i] != COLON by {
                if i > 0 {
                    assert(s[i] == t[i - 1]);
                }
            }
        }
        if has_colon(s) {
            let w = choose|i: int| 0 <= i < s.len() && s[i] == COLON;
            assert(w > 0 && t[w - 1] == COLON);
        }
    }
}

/// Copy of `v` with ASCII whitespace removed from both ends.
pub fn trim(v: &Vec<u8>) -> (r: Vec<u8>)
    ensures
        r@ == trimmed(v@),
{
    let mut start: usize = 0;
    while start < v.len() && is_space_byte(v[start])
        invariant
            0 <= start <= v@.len(),
            forall|k: int| 0 <= k < start ==> is_space(v@[k]),
        decreases v@.len() - start,
    {
        start = start + 1;
    }
    let mut end: usize = v.len();
    while end > start && is_space_byte(v[end - 1])
        invariant
            start <= end <= v@.len(),
            forall|k: int| end <= k < v@.len() ==> is_space(v@[k]),
        decreases end,
    {
        end = end - 1;
    }
    proof {
        lemma_trim_front_subrange(v@, start as int);
        let f = v@.subrange(start as int, v@.len() as int);
        assert(forall|k: int| end - start <= k < f.len() ==> is_space(f[k]));
        lemma_trim_back_subrange(f, end - start);
        assert(f.subrange(0, end - start) =~= v@.subrange(start as int, end as int));
    }
    copy_range(v, start, end)
}

/// A parsed inbound stream frame: the trimmed identity prefix and the trimmed
/// payload text.
pub struct Frame {
    pub identity: Vec<u8>,
    pub payload: Vec<u8>,
}

/// What parsing a frame yields: the halves on each side of the first colon,
/// each trimmed; nothing when the frame has no colon.
pub open spec fn parse_spec(s: Seq<u8>) -> Option<(Seq<u8>, Seq<u8>)> {
    if has_colon(s) {
        let i = first_colon(s);
        Some((trimmed(s.subrange(0, i)), trimmed(s.subrange(i + 1, s.len() as int))))
    } else {
        None
    }
}

/// Split an inbound frame at its first colon into identity and payload, both
/// trimmed of ASCII whitespace. A frame with no colon is malformed and yields
/// `None`: it is dropped without producing an event.
pub fn parse_frame(frame: &Vec<u8>) -> (r: Option<Frame>)
    ensures
        match r {
            Some(f) => {
                &&& parse_spec(frame@) is Some
                &&& f.identity@ == parse_spec(frame@)->Some_0.0
                &&& f.payload@ == parse_spec(frame@)->Some_0.1
            },
            None => parse_spec(frame@) is None,
        },
{
    proof {
        lemma_first_colon(frame@);
    }
    let mut i: usize = 0;
    while i < frame.len() && frame[i] != COLON
        invariant
            0 <= i <= frame@.len(),
            forall|k: int| 0 <= k < i ==> frame@[k] != COLON,
        decreases frame@.len() - i,
    {
        i = i + 1;
    }
    if i == frame.len() {
        proof {
            if has_colon(frame@) {
                let w = choose|k: int| 0 <= k < frame@.len() && frame@[k] == COLON;
                assert(frame@[w] != COLON);
            }
        }
        return None;
    }
    proof {
        assert(first_colon(frame@) == i) by {
            if first_colon(frame@) < i {
                assert(frame@[first_colon(frame@)] != COLON);
            }
        }
    }
    let left = copy_range(frame, 0, i);
    let right = copy_range(frame, i + 1, frame.len());
    Some(Frame { identity: trim(&left), payload: trim(&right) })
}

/// What a relayed stream message looks like on the wire: the sender's
/// identity, a colon and a space, then the payload.
pub open spec fn format_spec(identity: Seq<u8>, text: Seq<u8>) -> Seq<u8> {
    identity + seq![COLON, SPACE] + text
}

/// Build the outbound bytes `<identity>: <text>` for one recipient.
pub fn format_message(identity: &Vec<u8>, text: &Vec<u8>) -> (r: Vec<u8>)
    ensures
        r@ == format_spec(identity@, text@),
{
    let mut r: Vec<u8> = Vec::new();
    let mut i: usize = 0;
    while i < identity.len()
        invariant
            0 <= i <= identity@.len(),
            r@ == identity@.subrange(0, i as int),
        decreases identity@.len() - i,
    {
        r.push(identity[i]);
        i = i + 1;
        proof {
            assert(r@ =~= identity@.subrange(0, i as int));
        }
    }
    proof {
        assert(r@ =~= identity@);
    }
    r.push(COLON);
    r.push(SPACE);
    let mut j: usize = 0;
    while j < text.len()
        invariant
            0 <= j <= text@.len(),
            r@ == identity@ + seq![COLON, SPACE] + text@.subrange(0, j as int),
        decreases text@.len() - j,
    {
        r.push(text[j]);
        j = j + 1;
        proof {
            assert(r@ =~= identity@ + seq![COLON, SPACE] + text@.subrange(0, j as int));
        }
    }
    proof {
        assert(r@ =~= format_spec(identity@, text@));
    }
    r
}

/// The line feed byte that joins the lines of a multi-line message.
pub const LINE_FEED: u8 = 10;

/// The views of a sequence of byte strings.
pub open spec fn lines_view(lines: Seq<Vec<u8>>) -> Seq<Seq<u8>> {
    Seq::new(lines.len(), |i: int| lines[i]@)
}

/// The lines joined into one message, a line feed between consecutive
/// non-empty prefixes: a line appended to a still-empty message adds no
/// separator.
pub open spec fn joined(lines: Seq<Seq<u8>>) -> Seq<u8>
    decreases lines.len(),
{
    if lines.len() == 0 {
        Seq::empty()
    } else {
        let prev = joined(lines.drop_last());
        if prev.len() > 0 {
            prev + seq![LINE_FEED] + lines.last()
        } else {
            lines.last()
        }
    }
}

/// Join the lines of a multi-line message, a line feed between them.
pub fn join_lines(lines: &Vec<Vec<u8>>) -> (r: Vec<u8>)
    ensures
        r@ == joined(lines_view(lines@)),
{
    let ghost all = lines_view(lines@);
    let mut r: Vec<u8> = Vec::new();
    let mut i: usize = 0;
    while i < lines.len()
        invariant
            0 <= i <= lines@.len(),
            all == lines_view(lines@),
            all.len() == lines@.len(),
            r@ == joined(all.take(i as int)),
        decreases lines@.len() - i,
    {
        proof {
            assert(all.take(i + 1).drop_last() =~= all.take(i as int));
            assert(all.take(i + 1).last() == lines@[i as int]@);
        }
        let ghost base = if r@.len() > 0 {
            r@ + seq![LINE_FEED]
        } else {
            r@
        };
        if r.len() > 0 {
            r.push(LINE_FEED);
        }
        let mut j: usize = 0;
        while j < lines[i].len()
            invariant
                0 <= j <= lines@[i as int]@.len(),
                0 <= i < lines@.len(),
                r@ == base + lines@[i as int]@.subrange(0, j as int),
            decreases lines@[i as int]@.len() - j,
        {
            r.push(lines[i][j]);
            j = j + 1;
            proof {
                assert(r@ =~= base + lines@[i as int]@.subrange(0, j as int));
            }
        }
        i = i + 1;
        proof {
            assert(lines@[i - 1]@.subrange(0, lines@[i - 1]@.len() as int) =~= lines@[i - 1]@);
            assert(r@ =~= joined(all.take(i as int)));
        }
    }
    proof {
        assert(all.take(all.len() as int) =~= all);
    }
    r
}

} // verus!
