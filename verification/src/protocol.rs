//! The line protocol: one `|`-delimited message per line.  Reading and
//! writing sockets happens outside the library; this module turns received
//! line bytes into [`Answer`] values and turns [`Command`] values into line
//! bytes, exactly as the specifications below say.

use vstd::prelude::*;

use crate::{MoveDirection, PlayerId, Position};

verus! {

/// A message the client sends to the server.
#[derive(Debug)]
pub enum Command<'a> {
    /// Username and password.
    Join(&'a [u8], &'a [u8]),
    /// The move chosen for this tick.
    Move(MoveDirection),
    /// A chat line.
    Chat(&'a [u8]),
}

/// A message the server sends to the client.
#[derive(Debug)]
pub enum Answer {
    Motd(Vec<u8>),
    Error(Vec<u8>),
    Pos(PlayerId, Position),
    Win(u32, u32),
    Lose(u32, u32),
    Game(Position, PlayerId),
    Tick,
    Die(Vec<PlayerId>),
    Message(PlayerId, Vec<u8>),
    Player(PlayerId, Vec<u8>),
}

/// The one protocol-level failure the parser reports: an empty line means
/// the connection is dead.
#[derive(Clone, Copy, PartialEq, Eq, Structural, Debug)]
pub enum ProtocolError {
    EmptyAnswer,
}

/// ASCII whitespace, as trimmed from a received line.
pub open spec fn is_ws(b: u8) -> bool {
    b == 32 || b == 9 || b == 10 || b == 13
}

/// The line without leading whitespace.
pub open spec fn trim_front(s: Seq<u8>) -> Seq<u8>
    decreases s.len(),
{
    if s.len() > 0 && is_ws(s[0]) {
        trim_front(s.skip(1))
    } else {
        s
    }
}

/// The line without trailing whitespace.
pub open spec fn trim_back(s: Seq<u8>) -> Seq<u8>
    decreases s.len(),
{
    if s.len() > 0 && is_ws(s.last()) {
        trim_back(s.drop_last())
    } else {
        s
    }
}

/// The line without surrounding whitespace.
pub open spec fn trim(s: Seq<u8>) -> Seq<u8> {
    trim_back(trim_front(s))
}

/// The index of the first field separator, or the length if there is none.
pub open spec fn first_bar(s: Seq<u8>) -> int
    decreases s.len(),
{
    if s.len() == 0 {
        0
    } else if s[0] == 124 {
        0
    } else {
        1 + first_bar(s.skip(1))
    }
}

proof fn lemma_first_bar_bounds(s: Seq<u8>)
    ensures
        0 <= first_bar(s) <= s.len(),
        forall|k: int| 0 <= k < first_bar(s) ==> s[k] != 124,
        first_bar(s) < s.len() ==> s[first_bar(s)] == 124,
    decreases s.len(),
{
    if s.len() > 0 && s[0] != 124 {
        lemma_first_bar_bounds(s.skip(1));
        assert forall|k: int| 0 <= k < first_bar(s) implies s[k] != 124 by {
            if k > 0 {
                assert(s.skip(1)[k - 1] != 124);
            }
        }
    }
}

/// The `|`-separated fields of a line; always at least one field.
pub open spec fn split_fields(s: Seq<u8>) -> Seq<Seq<u8>>
    decreases s.len(),
        when true
        via split_fields_dec
{
    let k = first_bar(s);
    if k == s.len() {
        seq![s]
    } else {
        seq![s.take(k)] + split_fields(s.skip(k + 1))
    }
}

#[via_fn]
proof fn split_fields_dec(s: Seq<u8>) {
    lemma_first_bar_bounds(s);
}

/// A decimal digit.
pub open spec fn is_digit(b: u8) -> bool {
    48 <= b <= 57
}

/// The value of a digit string, most significant digit first.
pub open spec fn digits_val(s: Seq<u8>) -> int
    decreases s.len(),
{
    if s.len() == 0 {
        0
    } else {
        digits_val(s.drop_last()) * 10 + (s.last() - 48)
    }
}

/// A parsable number body: at least one byte, all digits.
pub open spec fn digits_ok(s: Seq<u8>) -> bool {
    s.len() >= 1 && forall|k: int| 0 <= k < s.len() ==> is_digit(#[trigger] s[k])
}

/// An optional leading plus sign, as the standard integer parser accepts.
pub open spec fn strip_plus(s: Seq<u8>) -> Seq<u8> {
    if s.len() >= 1 && s[0] == 43 {
        s.skip(1)
    } else {
        s
    }
}

/// What a numeric field means: its decimal value when it is a well-formed
/// number that fits, and zero otherwise; an unparsable field never stops
/// the message.
pub open spec fn parse_u32_spec(s: Seq<u8>) -> u32 {
    let d = strip_plus(s);
    if digits_ok(d) && digits_val(d) <= u32::MAX {
        digits_val(d) as u32
    } else {
        0
    }
}

proof fn lemma_digits_val_nonneg(s: Seq<u8>)
    requires
        forall|k: int| 0 <= k < s.len() ==> is_digit(#[trigger] s[k]),
    ensures
        digits_val(s) >= 0,
    decreases s.len(),
{
    if s.len() > 0 {
        lemma_digits_val_nonneg(s.drop_last());
    }
}

proof fn lemma_digits_val_prefix(s: Seq<u8>, j: int)
    requires
        0 <= j <= s.len(),
        forall|k: int| 0 <= k < s.len() ==> is_digit(#[trigger] s[k]),
    ensures
        digits_val(s) >= digits_val(s.take(j)),
    decreases s.len(),
{
    lemma_digits_val_nonneg(s);
    if j < s.len() && s.len() > 0 {
        assert(s.drop_last().take(j) =~= s.take(j));
        lemma_digits_val_prefix(s.drop_last(), j);
        lemma_digits_val_nonneg(s.drop_last());
    } else {
        assert(s.take(j) =~= s);
    }
}

/// The decimal value of a field, or zero when it is not a number that fits,
/// exactly as `parse_u32_spec` says.
pub fn parse_u32(s: &[u8]) -> (r: u32)
    ensures
        r == parse_u32_spec(s@),
{
    let n = s.len();
    let off: usize = if n >= 1 && s[0] == 43 {
        1
    } else {
        0
    };
    let ghost d = strip_plus(s@);
    proof {
        assert(d =~= s@.skip(off as int));
    }
    if n == off {
        return 0;
    }
    let mut acc: u64 = 0;
    let mut i: usize = off;
    proof {
        assert(s@.subrange(off as int, off as int) =~= Seq::<u8>::empty());
    }
    while i < n
        invariant
            off <= i <= n,
            n == s@.len(),
            off <= 1,
            d == s@.skip(off as int),
            d == strip_plus(s@),
            d.len() == n - off,
            forall|k: int| off <= k < i ==> is_digit(#[trigger] s@[k]),
            acc == digits_val(s@.subrange(off as int, i as int)),
            acc <= u32::MAX,
        decreases n - i,
    {
        let b = s[i];
        if !(48 <= b && b <= 57) {
            proof {
                assert(d[i - off] == s@[i as int]);
                assert(!digits_ok(d));
            }
            return 0;
        }
        proof {
            assert(s@.subrange(off as int, i + 1).drop_last() =~= s@.subrange(
                off as int,
                i as int,
            ));
            assert(s@.subrange(off as int, i + 1).last() == s@[i as int]);
        }
        acc = acc * 10 + ((b - 48) as u64);
        i += 1;
        if acc > (u32::MAX as u64) {
            proof {
                if digits_ok(d) {
                    assert(d.take(i - off) =~= s@.subrange(off as int, i as int));
                    lemma_digits_val_prefix(d, i - off);
                }
            }
            return 0;
        }
    }
    proof {
        assert(s@.subrange(off as int, n as int) =~= d);
        assert(digits_ok(d));
    }
    acc as u32
}

/// Whether the bytes of "kicked" appear at offset `i`.
pub open spec fn is_kicked_at(s: Seq<u8>, i: int) -> bool {
    &&& 0 <= i
    &&& i + 6 <= s.len()
    &&& s[i] == 'k' as u8
    &&& s[i + 1] == 'i' as u8
    &&& s[i + 2] == 'c' as u8
    &&& s[i + 3] == 'k' as u8
    &&& s[i + 4] == 'e' as u8
    &&& s[i + 5] == 'd' as u8
}

/// Whether an error message says the player was kicked; such a session must
/// terminate.
pub open spec fn contains_kicked_spec(s: Seq<u8>) -> bool {
    exists|i: int| is_kicked_at(s, i)
}

/// Does the message contain the word "kicked", as the spec predicate says?
pub fn contains_kicked(s: &[u8]) -> (r: bool)
    ensures
        r == contains_kicked_spec(s@),
{
    let n = s.len();
    if n < 6 {
        return false;
    }
    let mut i: usize = 0;
    while i <= n - 6
        invariant
            6 <= n == s@.len(),
            i <= n - 6 + 1,
            forall|j: int| 0 <= j < i ==> !is_kicked_at(s@, j),
        decreases n - i,
    {
        if s[i] == 107 && s[i + 1] == 105 && s[i + 2] == 99 && s[i + 3] == 107 && s[i + 4] == 101
            && s[i + 5] == 100 {
            proof {
                assert(is_kicked_at(s@, i as int));
            }
            return true;
        }
        i += 1;
    }
    false
}

/// The byte views of a field list.
pub open spec fn views(vs: Seq<Vec<u8>>) -> Seq<Seq<u8>> {
    vs.map_values(|v: Vec<u8>| v@)
}

/// A copy of `s[a..b]`.
fn sub_vec(s: &[u8], a: usize, b: usize) -> (r: Vec<u8>)
    requires
        a <= b <= s@.len(),
    ensures
        r@ == s@.subrange(a as int, b as int),
{
    let mut r: Vec<u8> = Vec::new();
    let mut k: usize = a;
    proof {
        assert(s@.subrange(a as int, a as int) =~= Seq::<u8>::empty());
    }
    while k < b
        invariant
            a <= k <= b <= s@.len(),
            r@ == s@.subrange(a as int, k as int),
        decreases b - k,
    {
        r.push(s[k]);
        proof {
            assert(s@.subrange(a as int, k + 1) =~= s@.subrange(a as int, k as int).push(
                s@[k as int],
            ));
        }
        k += 1;
    }
    r
}

proof fn lemma_trim_front_scan(s: Seq<u8>, a: int)
    requires
        0 <= a <= s.len(),
        forall|k: int| 0 <= k < a ==> is_ws(#[trigger] s[k]),
        a < s.len() ==> !is_ws(s[a]),
    ensures
        trim_front(s) == s.skip(a),
    decreases a,
{
    if a == 0 {
        assert(s.skip(0) =~= s);
    } else {
        assert(is_ws(s[0]));
        assert forall|k: int| 0 <= k < a - 1 implies is_ws(#[trigger] s.skip(1)[k]) by {
            assert(s.skip(1)[k] == s[k + 1]);
        }
        assert(a - 1 < s.skip(1).len() ==> !is_ws(s.skip(1)[a - 1]));
        lemma_trim_front_scan(s.skip(1), a - 1);
        assert(s.skip(1).skip(a - 1) =~= s.skip(a));
    }
}

proof fn lemma_trim_back_scan(s: Seq<u8>, b: int)
    requires
        0 <= b <= s.len(),
        forall|k: int| b <= k < s.len() ==> is_ws(#[trigger] s[k]),
        b > 0 ==> !is_ws(s[b - 1]),
    ensures
        trim_back(s) == s.take(b),
    decreases s.len() - b,
{
    if b == s.len() {
        assert(s.take(b) =~= s);
    } else {
        assert(is_ws(s.last()));
        assert forall|k: int| b <= k < s.drop_last().len() implies is_ws(
            #[trigger] s.drop_last()[k],
        ) by {
            assert(s.drop_last()[k] == s[k]);
        }
        lemma_trim_back_scan(s.drop_last(), b);
        assert(s.drop_last().take(b) =~= s.take(b));
    }
}

/// The line without surrounding ASCII whitespace, as `trim` says.
fn trim_bytes(s: &[u8]) -> (r: Vec<u8>)
    ensures
        r@ == trim(s@),
{
    let n = s.len();
    let mut a: usize = 0;
    while a < n && (s[a] == 32 || s[a] == 9 || s[a] == 10 || s[a] == 13)
        invariant
            a <= n,
            n == s@.len(),
            forall|k: int| 0 <= k < a ==> is_ws(#[trigger] s@[k]),
        decreases n - a,
    {
        a += 1;
    }
    let mut b: usize = n;
    while b > a && (s[b - 1] == 32 || s[b - 1] == 9 || s[b - 1] == 10 || s[b - 1] == 13)
        invariant
            a <= b <= n,
            n == s@.len(),
            forall|k: int| 0 <= k < a ==> is_ws(#[trigger] s@[k]),
            a < n ==> !is_ws(s@[a as int]),
            forall|k: int| b <= k < n ==> is_ws(#[trigger] s@[k]),
        decreases b,
    {
        b -= 1;
    }
    proof {
        lemma_trim_front_scan(s@, a as int);
        let t = s@.skip(a as int);
        assert forall|k: int| b - a <= k < t.len() implies is_ws(#[trigger] t[k]) by {
            assert(t[k] == s@[k + a]);
        }
        if b > a {
            assert(!is_ws(t[b - a - 1]));
        }
        lemma_trim_back_scan(t, b - a);
        assert(t.take(b - a) =~= s@.subrange(a as int, b as int));
    }
    sub_vec(s, a, b)
}

/// Splits a line into its `|`-separated fields, as `split_fields` says.
fn split_line(s: &[u8]) -> (r: Vec<Vec<u8>>)
    ensures
        views(r@) == split_fields(s@),
{
    let n = s.len();
    let mut fields: Vec<Vec<u8>> = Vec::new();
    let mut i: usize = 0;
    let mut done: bool = false;
    proof {
        assert(views(fields@) =~= Seq::<Seq<u8>>::empty());
        assert(views(fields@) + split_fields(s@.skip(0)) =~= split_fields(s@.skip(0)));
        assert(s@.skip(0) =~= s@);
    }
    while !done
        invariant
            i <= n,
            n == s@.len(),
            !done ==> split_fields(s@) == views(fields@) + split_fields(s@.skip(i as int)),
            done ==> split_fields(s@) == views(fields@),
        decreases n - i + (if done { 0int } else { 1int }),
    {
        let ghost rem = s@.skip(i as int);
        let mut j: usize = i;
        while j < n && s[j] != 124
            invariant
                i <= j <= n,
                n == s@.len(),
                forall|k: int| i <= k < j ==> s@[k] != 124,
            decreases n - j,
        {
            j += 1;
        }
        proof {
            assert forall|k: int| 0 <= k < j - i implies rem[k] != 124 by {
                assert(rem[k] == s@[k + i]);
            }
            if j < n {
                assert(rem[j - i] == s@[j as int]);
            }
            lemma_first_bar_bounds(rem);
            assert(first_bar(rem) == j - i) by {
                if first_bar(rem) < j - i {
                    assert(rem[first_bar(rem)] == 124);
                }
            }
        }
        let f = sub_vec(s, i, j);
        proof {
            assert(f@ =~= rem.take(j - i));
        }
        fields.push(f);
        proof {
            assert(views(fields@) =~= views(fields@.drop_last()).push(f@));
        }
        if j == n {
            proof {
                assert(split_fields(rem) == seq![rem]);
                assert(rem.take(j - i) =~= rem);
                assert(views(fields@) =~= views(fields@.drop_last()) + seq![rem]);
            }
            i = n;
            done = true;
        } else {
            proof {
                assert(split_fields(rem) == seq![rem.take(j - i)] + split_fields(
                    rem.skip(j - i + 1),
                ));
                assert(rem.skip(j - i + 1) =~= s@.skip(j + 1));
                assert(views(fields@) + split_fields(s@.skip(j + 1)) =~= (views(
                    fields@.drop_last(),
                ) + seq![rem.take(j - i)]) + split_fields(rem.skip(j - i + 1)));
                assert((views(fields@.drop_last()) + seq![rem.take(j - i)]) + split_fields(
                    rem.skip(j - i + 1),
                ) =~= views(fields@.drop_last()) + (seq![rem.take(j - i)] + split_fields(
                    rem.skip(j - i + 1),
                )));
            }
            i = j + 1;
        }
    }
    fields
}

/// The field at `i`; a missing field reads as empty text.
pub open spec fn field_or_empty(fs: Seq<Seq<u8>>, i: int) -> Seq<u8> {
    if 0 <= i < fs.len() {
        fs[i]
    } else {
        Seq::empty()
    }
}

/// The numeric value of the field at `i`; a missing field counts as zero.
pub open spec fn num_field(fs: Seq<Seq<u8>>, i: int) -> u32 {
    if 0 <= i < fs.len() {
        parse_u32_spec(fs[i])
    } else {
        0
    }
}

pub open spec fn is_tag_motd(t: Seq<u8>) -> bool {
    t.len() == 4 && t[0] == 'm' as u8 && t[1] == 'o' as u8 && t[2] == 't' as u8 && t[3]
        == 'd' as u8
}

pub open spec fn is_tag_error(t: Seq<u8>) -> bool {
    t.len() == 5 && t[0] == 'e' as u8 && t[1] == 'r' as u8 && t[2] == 'r' as u8 && t[3]
        == 'o' as u8 && t[4] == 'r' as u8
}

pub open spec fn is_tag_pos(t: Seq<u8>) -> bool {
    t.len() == 3 && t[0] == 'p' as u8 && t[1] == 'o' as u8 && t[2] == 's' as u8
}

pub open spec fn is_tag_win(t: Seq<u8>) -> bool {
    t.len() == 3 && t[0] == 'w' as u8 && t[1] == 'i' as u8 && t[2] == 'n' as u8
}

pub open spec fn is_tag_lose(t: Seq<u8>) -> bool {
    t.len() == 4 && t[0] == 'l' as u8 && t[1] == 'o' as u8 && t[2] == 's' as u8 && t[3]
        == 'e' as u8
}

pub open spec fn is_tag_game(t: Seq<u8>) -> bool {
    t.len() == 4 && t[0] == 'g' as u8 && t[1] == 'a' as u8 && t[2] == 'm' as u8 && t[3]
        == 'e' as u8
}

pub open spec fn is_tag_tick(t: Seq<u8>) -> bool {
    t.len() == 4 && t[0] == 't' as u8 && t[1] == 'i' as u8 && t[2] == 'c' as u8 && t[3]
        == 'k' as u8
}

pub open spec fn is_tag_die(t: Seq<u8>) -> bool {
    t.len() == 3 && t[0] == 'd' as u8 && t[1] == 'i' as u8 && t[2] == 'e' as u8
}

pub open spec fn is_tag_message(t: Seq<u8>) -> bool {
    t.len() == 7 && t[0] == 'm' as u8 && t[1] == 'e' as u8 && t[2] == 's' as u8 && t[3]
        == 's' as u8 && t[4] == 'a' as u8 && t[5] == 'g' as u8 && t[6] == 'e' as u8
}

pub open spec fn is_tag_player(t: Seq<u8>) -> bool {
    t.len() == 6 && t[0] == 'p' as u8 && t[1] == 'l' as u8 && t[2] == 'a' as u8 && t[3]
        == 'y' as u8 && t[4] == 'e' as u8 && t[5] == 'r' as u8
}

/// What parsing one received line yields: the trimmed line is split on
/// `|`; an empty tag is the fatal empty-answer condition; a known tag
/// builds its message from the following fields, a missing field reading
/// as empty text or the number zero; an unknown tag is ignored.
pub open spec fn parse_answer_post(
    line: Seq<u8>,
    r: Result<Option<Answer>, ProtocolError>,
) -> bool {
    let fs = split_fields(trim(line));
    let tag = fs[0];
    if tag.len() == 0 {
        r == Result::<Option<Answer>, ProtocolError>::Err(ProtocolError::EmptyAnswer)
    } else if is_tag_motd(tag) {
        r matches Ok(Some(Answer::Motd(m))) && m@ == field_or_empty(fs, 1)
    } else if is_tag_error(tag) {
        r matches Ok(Some(Answer::Error(m))) && m@ == field_or_empty(fs, 1)
    } else if is_tag_pos(tag) {
        r matches Ok(Some(Answer::Pos(p, q))) && p == PlayerId(num_field(fs, 1)) && q == (Position {
            x: num_field(fs, 2),
            y: num_field(fs, 3),
        })
    } else if is_tag_win(tag) {
        r matches Ok(Some(Answer::Win(a, b))) && a == num_field(fs, 1) && b == num_field(fs, 2)
    } else if is_tag_lose(tag) {
        r matches Ok(Some(Answer::Lose(a, b))) && a == num_field(fs, 1) && b == num_field(fs, 2)
    } else if is_tag_game(tag) {
        r matches Ok(Some(Answer::Game(sz, id))) && sz == (Position {
            x: num_field(fs, 1),
            y: num_field(fs, 2),
        }) && id == PlayerId(num_field(fs, 3))
    } else if is_tag_tick(tag) {
        r == Result::<Option<Answer>, ProtocolError>::Ok(Some(Answer::Tick))
    } else if is_tag_die(tag) {
        r matches Ok(Some(Answer::Die(ids))) && ids@.len() == fs.len() - 1 && forall|k: int|
            0 <= k < ids@.len() ==> ids@[k] == PlayerId(parse_u32_spec(#[trigger] fs[k + 1]))
    } else if is_tag_message(tag) {
        r matches Ok(Some(Answer::Message(p, m))) && p == PlayerId(num_field(fs, 1)) && m@
            == field_or_empty(fs, 2)
    } else if is_tag_player(tag) {
        r matches Ok(Some(Answer::Player(p, m))) && p == PlayerId(num_field(fs, 1)) && m@
            == field_or_empty(fs, 2)
    } else {
        r == Result::<Option<Answer>, ProtocolError>::Ok(None)
    }
}

/// The numeric value of field `i`, as `num_field` says.
fn field_num(fields: &Vec<Vec<u8>>, i: usize) -> (r: u32)
    ensures
        r == num_field(views(fields@), i as int),
{
    if i < fields.len() {
        parse_u32(fields[i].as_slice())
    } else {
        0
    }
}

/// A copy of the text of field `i`, as `field_or_empty` says.
fn field_bytes(fields: &Vec<Vec<u8>>, i: usize) -> (r: Vec<u8>)
    ensures
        r@ == field_or_empty(views(fields@), i as int),
{
    if i < fields.len() {
        let f = fields[i].as_slice();
        let r = sub_vec(f, 0, f.len());
        proof {
            assert(f@.subrange(0, f@.len() as int) =~= f@);
        }
        r
    } else {
        Vec::new()
    }
}

/// Parses one received line, exactly as `parse_answer_post` says.
pub fn parse_answer(line: &[u8]) -> (r: Result<Option<Answer>, ProtocolError>)
    ensures
        parse_answer_post(line@, r),
{
    let trimmed = trim_bytes(line);
    let fields = split_line(trimmed.as_slice());
    let ghost fs = split_fields(trim(line@));
    proof {
        assert(views(fields@) == fs);
        lemma_first_bar_bounds(trim(line@));
        assert(fs.len() >= 1);
        assert(fields@.len() == views(fields@).len());
        assert(views(fields@)[0] == fields@[0]@);
    }
    let t = fields[0].as_slice();
    if t.len() == 0 {
        Err(ProtocolError::EmptyAnswer)
    } else if t.len() == 4 && t[0] == 'm' as u8 && t[1] == 'o' as u8 && t[2] == 't' as u8 && t[3]
        == 'd' as u8 {
        Ok(Some(Answer::Motd(field_bytes(&fields, 1))))
    } else if t.len() == 5 && t[0] == 'e' as u8 && t[1] == 'r' as u8 && t[2] == 'r' as u8 && t[3]
        == 'o' as u8 && t[4] == 'r' as u8 {
        Ok(Some(Answer::Error(field_bytes(&fields, 1))))
    } else if t.len() == 3 && t[0] == 'p' as u8 && t[1] == 'o' as u8 && t[2] == 's' as u8 {
        Ok(
            Some(
                Answer::Pos(
                    PlayerId(field_num(&fields, 1)),
                    Position { x: field_num(&fields, 2), y: field_num(&fields, 3) },
                ),
            ),
        )
    } else if t.len() == 3 && t[0] == 'w' as u8 && t[1] == 'i' as u8 && t[2] == 'n' as u8 {
        Ok(Some(Answer::Win(field_num(&fields, 1), field_num(&fields, 2))))
    } else if t.len() == 4 && t[0] == 'l' as u8 && t[1] == 'o' as u8 && t[2] == 's' as u8 && t[3]
        == 'e' as u8 {
        Ok(Some(Answer::Lose(field_num(&fields, 1), field_num(&fields, 2))))
    } else if t.len() == 4 && t[0] == 'g' as u8 && t[1] == 'a' as u8 && t[2] == 'm' as u8 && t[3]
        == 'e' as u8 {
        Ok(
            Some(
                Answer::Game(
                    Position { x: field_num(&fields, 1), y: field_num(&fields, 2) },
                    PlayerId(field_num(&fields, 3)),
                ),
            ),
        )
    } else if t.len() == 4 && t[0] == 't' as u8 && t[1] == 'i' as u8 && t[2] == 'c' as u8 && t[3]
        == 'k' as u8 {
        Ok(Some(Answer::Tick))
    } else if t.len() == 3 && t[0] == 'd' as u8 && t[1] == 'i' as u8 && t[2] == 'e' as u8 {
        let m = fields.len();
        let mut ids: Vec<PlayerId> = Vec::new();
        let mut k: usize = 1;
        while k < m
            invariant
                1 <= k <= m,
                m == fields@.len(),
                ids@.len() == k - 1,
                forall|j: int|
                    0 <= j < ids@.len() ==> ids@[j] == PlayerId(
                        parse_u32_spec(#[trigger] views(fields@)[j + 1]),
                    ),
            decreases m - k,
        {
            let id = parse_u32(fields[k].as_slice());
            ids.push(PlayerId(id));
            k += 1;
        }
        Ok(Some(Answer::Die(ids)))
    } else if t.len() == 7 && t[0] == 'm' as u8 && t[1] == 'e' as u8 && t[2] == 's' as u8 && t[3]
        == 's' as u8 && t[4] == 'a' as u8 && t[5] == 'g' as u8 && t[6] == 'e' as u8 {
        Ok(Some(Answer::Message(PlayerId(field_num(&fields, 1)), field_bytes(&fields, 2))))
    } else if t.len() == 6 && t[0] == 'p' as u8 && t[1] == 'l' as u8 && t[2] == 'a' as u8 && t[3]
        == 'y' as u8 && t[4] == 'e' as u8 && t[5] == 'r' as u8 {
        Ok(Some(Answer::Player(PlayerId(field_num(&fields, 1)), field_bytes(&fields, 2))))
    } else {
        Ok(None)
    }
}

/// The wire word of a direction.
pub open spec fn move_word(d: MoveDirection) -> Seq<u8> {
    match d {
        MoveDirection::Up => seq!['u' as u8, 'p' as u8],
        MoveDirection::Right => seq!['r' as u8, 'i' as u8, 'g' as u8, 'h' as u8, 't' as u8],
        MoveDirection::Down => seq!['d' as u8, 'o' as u8, 'w' as u8, 'n' as u8],
        MoveDirection::Left => seq!['l' as u8, 'e' as u8, 'f' as u8, 't' as u8],
    }
}

/// The exact line bytes of an outgoing command, newline-terminated.
pub open spec fn encode_spec(c: Command<'_>) -> Seq<u8> {
    match c {
        Command::Join(user, password) => seq![
            'j' as u8,
            'o' as u8,
            'i' as u8,
            'n' as u8,
            124u8,
        ] + user@ + seq![124u8] + password@ + seq![10u8],
        Command::Move(d) => seq!['m' as u8, 'o' as u8, 'v' as u8, 'e' as u8, 124u8] + move_word(d)
            + seq![10u8],
        Command::Chat(m) => seq!['c' as u8, 'h' as u8, 'a' as u8, 't' as u8, 124u8] + m@ + seq![
            10u8,
        ],
    }
}

/// Appends a byte slice.
fn append_bytes(v: &mut Vec<u8>, s: &[u8])
    ensures
        final(v)@ == old(v)@ + s@,
{
    let n = s.len();
    let mut k: usize = 0;
    proof {
        assert(old(v)@ + s@.take(0) =~= old(v)@);
    }
    while k < n
        invariant
            k <= n,
            n == s@.len(),
            v@ == old(v)@ + s@.take(k as int),
        decreases n - k,
    {
        v.push(s[k]);
        proof {
            assert(old(v)@ + s@.take(k + 1) =~= (old(v)@ + s@.take(k as int)).push(s@[k as int]));
        }
        k += 1;
    }
    proof {
        assert(old(v)@ + s@.take(n as int) =~= old(v)@ + s@);
    }
}

/// Builds the exact line bytes of an outgoing command, as `encode_spec`
/// says; the engine itself only ever emits move commands.
pub fn encode_command(command: &Command<'_>) -> (r: Vec<u8>)
    ensures
        r@ == encode_spec(*command),
{
    let mut out: Vec<u8> = Vec::new();
    match command {
        Command::Join(user, password) => {
            out.push('j' as u8);
            out.push('o' as u8);
            out.push('i' as u8);
            out.push('n' as u8);
            out.push(124);
            append_bytes(&mut out, user);
            out.push(124);
            append_bytes(&mut out, password);
            out.push(10);
            proof {
                assert(out@ =~= encode_spec(*command));
            }
        },
        Command::Move(d) => {
            out.push('m' as u8);
            out.push('o' as u8);
            out.push('v' as u8);
            out.push('e' as u8);
            out.push(124);
            match d {
                MoveDirection::Up => {
                    out.push('u' as u8);
                    out.push('p' as u8);
                },
                MoveDirection::Right => {
                    out.push('r' as u8);
                    out.push('i' as u8);
                    out.push('g' as u8);
                    out.push('h' as u8);
                    out.push('t' as u8);
                },
                MoveDirection::Down => {
                    out.push('d' as u8);
                    out.push('o' as u8);
                    out.push('w' as u8);
                    out.push('n' as u8);
                },
                MoveDirection::Left => {
                    out.push('l' as u8);
                    out.push('e' as u8);
                    out.push('f' as u8);
                    out.push('t' as u8);
                },
            }
            out.push(10);
            proof {
                assert(out@ =~= encode_spec(*command));
            }
        },
        Command::Chat(m) => {
            out.push('c' as u8);
            out.push('h' as u8);
            out.push('a' as u8);
            out.push('t' as u8);
            out.push(124);
            append_bytes(&mut out, m);
            out.push(10);
            proof {
                assert(out@ =~= encode_spec(*command));
            }
        },
    }
    out
}

} // verus!

