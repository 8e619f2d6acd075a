//! Bencode, the encoding of torrent files and tracker replies: its grammar
//! as a reader accepts it, its canonical writing, and a reader of values.
use vstd::prelude::*;

verus! {

// ---------------------------------------------------------------------------
// The model of values
// ---------------------------------------------------------------------------

/// A bencoded value as a mathematical object.
pub enum Bencode {
    Int(int),
    Bytes(Seq<u8>),
    List(Seq<Bencode>),
    Dict(Seq<(Seq<u8>, Bencode)>),
}

/// A bencoded value. A dictionary keeps its entries in the order in which
/// their keys first appeared, each key once.
#[derive(Debug, PartialEq, Eq)]
pub enum BValue {
    Int(i64),
    Bytes(Vec<u8>),
    List(Vec<BValue>),
    Dict(Vec<(Vec<u8>, BValue)>),
}

/// The models of a sequence of values.
pub open spec fn list_view(l: Seq<BValue>) -> Seq<Bencode> {
    Seq::new(l.len(), |i: int| l[i]@)
}

/// The models of a sequence of dictionary entries.
pub open spec fn dict_view(d: Seq<(Vec<u8>, BValue)>) -> Seq<(Seq<u8>, Bencode)> {
    Seq::new(d.len(), |i: int| (d[i].0@, d[i].1@))
}

/// The model of a value.
pub open spec fn bvalue_view(v: BValue) -> Bencode
    decreases v,
{
    match v {
        BValue::Int(i) => Bencode::Int(i as int),
        BValue::Bytes(b) => Bencode::Bytes(b@),
        BValue::List(l) => Bencode::List(
            Seq::new(
                l@.len(),
                |i: int|
                    if 0 <= i < l@.len() {
                        bvalue_view(l@[i])
                    } else {
                        Bencode::Int(0)
                    },
            ),
        ),
        BValue::Dict(d) => Bencode::Dict(
            Seq::new(
                d@.len(),
                |i: int|
                    if 0 <= i < d@.len() {
                        (d@[i].0@, bvalue_view(d@[i].1))
                    } else {
                        (Seq::empty(), Bencode::Int(0))
                    },
            ),
        ),
    }
}

impl View for BValue {
    type V = Bencode;

    open spec fn view(&self) -> Bencode {
        bvalue_view(*self)
    }
}

// ---------------------------------------------------------------------------
// Bytes of the grammar
// ---------------------------------------------------------------------------

/// `i`, which opens an integer.
pub const TOKEN_INT: u8 = 105;

/// `l`, which opens a list.
pub const TOKEN_LIST: u8 = 108;

/// `d`, which opens a dictionary.
pub const TOKEN_DICT: u8 = 100;

/// `e`, which closes integers, lists and dictionaries.
pub const TOKEN_END: u8 = 101;

/// `:`, which ends the length of a byte string.
pub const TOKEN_COLON: u8 = 58;

/// `-`.
pub const TOKEN_MINUS: u8 = 45;

/// `+`.
pub const TOKEN_PLUS: u8 = 43;

/// Whether `b` is an ASCII decimal digit.
pub open spec fn is_digit(b: u8) -> bool {
    48 <= b <= 57
}

/// Whether every byte of `s` is a decimal digit.
pub open spec fn all_digits(s: Seq<u8>) -> bool {
    forall|i: int| 0 <= i < s.len() ==> is_digit(#[trigger] s[i])
}

/// The number that the decimal digits `s` spell (leading zeros allowed).
pub open spec fn digits_value(s: Seq<u8>) -> nat
    decreases s.len(),
{
    if s.len() == 0 {
        0
    } else {
        10 * digits_value(s.drop_last()) + (if s.last() >= 48 {
            (s.last() - 48) as nat
        } else {
            0
        })
    }
}

/// The first position at or after `from` that holds `b`.
pub open spec fn find_byte(s: Seq<u8>, from: int, b: u8) -> Option<int>
    decreases s.len() - from,
{
    if from < 0 || from >= s.len() {
        None
    } else if s[from] == b {
        Some(from)
    } else {
        find_byte(s, from + 1, b)
    }
}

/// The largest magnitude of a negative 64-bit integer.
pub open spec fn i64_neg_limit() -> nat {
    0x8000_0000_0000_0000
}

/// The largest 64-bit integer.
pub open spec fn i64_pos_limit() -> nat {
    0x7fff_ffff_ffff_ffff
}

/// The integer that the text between `i` and `e` denotes: an optional sign
/// and at least one decimal digit, within the 64-bit signed range.
pub open spec fn int_of_body(body: Seq<u8>) -> Option<int> {
    let signed = body.len() > 0 && (body[0] == TOKEN_MINUS || body[0] == TOKEN_PLUS);
    let neg = body.len() > 0 && body[0] == TOKEN_MINUS;
    let digits = if signed {
        body.drop_first()
    } else {
        body
    };
    if digits.len() == 0 || !all_digits(digits) {
        None
    } else if neg {
        if digits_value(digits) <= i64_neg_limit() {
            Some(-(digits_value(digits) as int))
        } else {
            None
        }
    } else if digits_value(digits) <= i64_pos_limit() {
        Some(digits_value(digits) as int)
    } else {
        None
    }
}

/// An integer token that starts at `pos` (which holds `i`): its value and
/// the position after its `e`.
pub open spec fn int_token(s: Seq<u8>, pos: int) -> Option<(int, int)> {
    match find_byte(s, pos + 1, TOKEN_END) {
        None => None,
        Some(j) => match int_of_body(s.subrange(pos + 1, j)) {
            None => None,
            Some(v) => Some((v, j + 1)),
        },
    }
}

/// A byte string token that starts at `pos` (which holds a digit): its
/// bytes and the position after them. The length is decimal digits up to
/// `:`, at most `usize::MAX`, and that many bytes must follow.
pub open spec fn bytes_token(s: Seq<u8>, pos: int) -> Option<(Seq<u8>, int)> {
    match find_byte(s, pos, TOKEN_COLON) {
        None => None,
        Some(j) => {
            let digits = s.subrange(pos, j);
            let n = digits_value(digits);
            if digits.len() == 0 || !all_digits(digits) || n > usize::MAX {
                None
            } else if j + 1 + n > s.len() {
                None
            } else {
                Some((s.subrange(j + 1, j + 1 + n), j + 1 + n))
            }
        },
    }
}

/// A list of integers from 0 to 255, each a byte of a dictionary key,
/// read from `pos` up to and including its `e`.
pub open spec fn key_byte_list(s: Seq<u8>, pos: int, acc: Seq<u8>) -> Option<(Seq<u8>, int)>
    decreases s.len() - pos,
{
    if pos < 0 || pos >= s.len() {
        None
    } else if s[pos] == TOKEN_END {
        Some((acc, pos + 1))
    } else if s[pos] == TOKEN_INT {
        match int_token(s, pos) {
            None => None,
            Some((v, n)) => if 0 <= v <= 255 && pos < n <= s.len() {
                key_byte_list(s, n, acc.push(v as u8))
            } else {
                None
            },
        }
    } else {
        None
    }
}

/// A dictionary key at `pos`: a byte string, or a list of integers that
/// are bytes.
pub open spec fn key_token(s: Seq<u8>, pos: int) -> Option<(Seq<u8>, int)> {
    if pos < 0 || pos >= s.len() {
        None
    } else if is_digit(s[pos]) {
        bytes_token(s, pos)
    } else if s[pos] == TOKEN_LIST {
        key_byte_list(s, pos + 1, Seq::empty())
    } else {
        None
    }
}

/// Whether some entry of `d` has key `k`.
pub open spec fn has_key(d: Seq<(Seq<u8>, Bencode)>, k: Seq<u8>) -> bool {
    exists|i: int| 0 <= i < d.len() && (#[trigger] d[i]).0 == k
}

/// Sets `k` to `v` in the entries `d`: an entry with key `k` gets the new
/// value in its place, else the entry is added at the end.
pub open spec fn dict_insert(d: Seq<(Seq<u8>, Bencode)>, k: Seq<u8>, v: Bencode) -> Seq<
    (Seq<u8>, Bencode),
> {
    if has_key(d, k) {
        d.update(choose|i: int| 0 <= i < d.len() && (#[trigger] d[i]).0 == k, (k, v))
    } else {
        d.push((k, v))
    }
}

/// Whether the keys of `d` are pairwise distinct.
pub open spec fn keys_unique(d: Seq<(Seq<u8>, Bencode)>) -> bool {
    forall|i: int, j: int| 0 <= i < d.len() && 0 <= j < d.len() && i != j ==> (#[trigger] d[i]).0
        != (#[trigger] d[j]).0
}

/// The value that starts at `pos`, and the position after it.
pub open spec fn parse_value(s: Seq<u8>, pos: int) -> Option<(Bencode, int)>
    decreases s.len() - pos, 0int,
{
    if pos < 0 || pos >= s.len() {
        None
    } else if s[pos] == TOKEN_INT {
        match int_token(s, pos) {
            None => None,
            Some((v, n)) => Some((Bencode::Int(v), n)),
        }
    } else if is_digit(s[pos]) {
        match bytes_token(s, pos) {
            None => None,
            Some((b, n)) => Some((Bencode::Bytes(b), n)),
        }
    } else if s[pos] == TOKEN_LIST {
        parse_list(s, pos + 1, Seq::empty())
    } else if s[pos] == TOKEN_DICT {
        parse_dict(s, pos + 1, Seq::empty())
    } else {
        None
    }
}

/// The rest of a list from `pos`, after the items `acc`, up to and
/// including its `e`.
pub open spec fn parse_list(s: Seq<u8>, pos: int, acc: Seq<Bencode>) -> Option<(Bencode, int)>
    decreases s.len() - pos, 1int,
{
    if pos < 0 || pos >= s.len() {
        None
    } else if s[pos] == TOKEN_END {
        Some((Bencode::List(acc), pos + 1))
    } else {
        match parse_value(s, pos) {
            None => None,
            Some((v, p)) => if pos < p <= s.len() {
                parse_list(s, p, acc.push(v))
            } else {
                None
            },
        }
    }
}

/// The rest of a dictionary from `pos`, after the entries `acc`, up to and
/// including its `e`. A repeated key keeps its first place and takes the
/// last value.
pub open spec fn parse_dict(s: Seq<u8>, pos: int, acc: Seq<(Seq<u8>, Bencode)>) -> Option<
    (Bencode, int),
>
    decreases s.len() - pos, 1int,
{
    if pos < 0 || pos >= s.len() {
        None
    } else if s[pos] == TOKEN_END {
        Some((Bencode::Dict(acc), pos + 1))
    } else {
        match key_token(s, pos) {
            None => None,
            Some((k, p)) => if pos < p <= s.len() {
                match parse_value(s, p) {
                    None => None,
                    Some((v, q)) => if p < q <= s.len() {
                        parse_dict(s, q, dict_insert(acc, k, v))
                    } else {
                        None
                    },
                }
            } else {
                None
            },
        }
    }
}

// ---------------------------------------------------------------------------
// Reading
// ---------------------------------------------------------------------------

/// Input that is not bencode.
#[derive(Debug, Clone, Copy, PartialEq, Eq, Structural)]
pub enum BencodeError {
    Invalid,
}

proof fn lemma_digits_value_prefix(s: Seq<u8>, i: int)
    requires
        0 <= i <= s.len(),
    ensures
        digits_value(s.subrange(0, i)) <= digits_value(s),
    decreases s.len() - i,
{
    if i < s.len() {
        lemma_digits_value_prefix(s, i + 1);
        assert(s.subrange(0, i + 1).drop_last() =~= s.subrange(0, i));
    } else {
        assert(s.subrange(0, i) =~= s);
    }
}

/// What the first occurrence of a byte is.
pub proof fn lemma_find_byte(s: Seq<u8>, from: int, b: u8)
    requires
        0 <= from,
    ensures
        match find_byte(s, from, b) {
            Some(j) => from <= j < s.len() && s[j] == b && forall|k: int|
                from <= k < j ==> s[k] != b,
            None => forall|k: int| from <= k < s.len() ==> s[k] != b,
        },
    decreases s.len() - from,
{
    if from < s.len() && s[from] != b {
        lemma_find_byte(s, from + 1, b);
    }
}

fn find_byte_exec(s: &[u8], from: usize, b: u8) -> (r: Option<usize>)
    requires
        from <= s@.len(),
    ensures
        match r {
            Some(j) => find_byte(s@, from as int, b) == Some(j as int) && from <= j < s@.len(),
            None => find_byte(s@, from as int, b) is None,
        },
{
    proof {
        lemma_find_byte(s@, from as int, b);
    }
    let mut i = from;
    while i < s.len()
        invariant
            from <= i <= s@.len(),
            find_byte(s@, from as int, b) == find_byte(s@, i as int, b),
        decreases s@.len() - i,
    {
        if s[i] == b {
            return Some(i);
        }
        i = i + 1;
    }
    None
}

/// The number that `s[from..to]` spells, when it is a nonempty run of
/// digits whose value is at most `limit`.
fn digits_exec(s: &[u8], from: usize, to: usize, limit: u128) -> (r: Option<u128>)
    requires
        from <= to <= s@.len(),
        limit < 0x1_0000_0000_0000_0000,
    ensures
        ({
            let d = s@.subrange(from as int, to as int);
            match r {
                Some(v) => d.len() > 0 && all_digits(d) && digits_value(d) <= limit && v
                    == digits_value(d),
                None => !(d.len() > 0 && all_digits(d) && digits_value(d) <= limit),
            }
        }),
{
    let ghost d = s@.subrange(from as int, to as int);
    if from == to {
        return None;
    }
    let mut acc: u128 = 0;
    let mut i = from;
    while i < to
        invariant
            from <= i <= to <= s@.len(),
            d == s@.subrange(from as int, to as int),
            limit < 0x1_0000_0000_0000_0000,
            acc <= limit,
            acc == digits_value(d.subrange(0, i - from)),
            all_digits(d.subrange(0, i - from)),
        decreases to - i,
    {
        let c = s[i];
        if c < 48 || c > 57 {
            assert(!all_digits(d)) by {
                assert(d[i - from] == c);
            }
            return None;
        }
        assert(d.subrange(0, i + 1 - from).drop_last() =~= d.subrange(0, i - from));
        acc = acc * 10 + (c - 48) as u128;
        i = i + 1;
        assert(all_digits(d.subrange(0, i - from))) by {
            assert forall|k: int| 0 <= k < i - from implies is_digit(
                #[trigger] d.subrange(0, i - from)[k],
            ) by {
                if k < i - 1 - from {
                    assert(d.subrange(0, i - 1 - from)[k] == d.subrange(0, i - from)[k]);
                }
            }
        }
        if acc > limit {
            proof {
                lemma_digits_value_prefix(d, i - from);
            }
            return None;
        }
    }
    assert(d.subrange(0, to - from) =~= d);
    Some(acc)
}

/// An integer token at `pos`, which holds `i`.
fn int_token_exec(s: &[u8], pos: usize) -> (r: Option<(i64, usize)>)
    requires
        pos < s@.len(),
        s@[pos as int] == TOKEN_INT,
    ensures
        match r {
            Some((v, n)) => int_token(s@, pos as int) == Some((v as int, n as int)),
            None => int_token(s@, pos as int) is None,
        },
{
    let slen = s.len();
    assert(pos < slen);
    let j = match find_byte_exec(s, pos + 1, TOKEN_END) {
        None => return None,
        Some(j) => j,
    };
    let ghost body = s@.subrange(pos + 1, j as int);
    let mut start = pos + 1;
    let mut neg = false;
    if j > pos + 1 && (s[pos + 1] == TOKEN_MINUS || s[pos + 1] == TOKEN_PLUS) {
        neg = s[pos + 1] == TOKEN_MINUS;
        start = pos + 2;
        assert(body.drop_first() =~= s@.subrange(pos + 2, j as int));
        assert(body[0] == s@[pos + 1]);
    } else {
        assert(body =~= s@.subrange(pos + 1, j as int));
    }
    let limit: u128 = if neg {
        0x8000_0000_0000_0000
    } else {
        0x7fff_ffff_ffff_ffff
    };
    match digits_exec(s, start, j, limit) {
        None => None,
        Some(m) => {
            let v: i64 = if neg {
                (0 - (m as i128)) as i64
            } else {
                m as i64
            };
            Some((v, j + 1))
        },
    }
}

/// A byte string token at `pos`, which holds a digit.
fn bytes_token_exec(s: &[u8], pos: usize) -> (r: Option<(Vec<u8>, usize)>)
    requires
        pos < s@.len(),
    ensures
        match r {
            Some((b, n)) => bytes_token(s@, pos as int) == Some((b@, n as int)),
            None => bytes_token(s@, pos as int) is None,
        },
{
    let j = match find_byte_exec(s, pos, TOKEN_COLON) {
        None => return None,
        Some(j) => j,
    };
    let n = match digits_exec(s, pos, j, usize::MAX as u128) {
        None => return None,
        Some(n) => n as usize,
    };
    if n > s.len() - (j + 1) {
        return None;
    }
    let b = crate::seqs::bytes_to_vec(&s[j + 1..j + 1 + n]);
    Some((b, j + 1 + n))
}


/// Whether two byte strings are equal.
pub fn bytes_eq(a: &[u8], b: &[u8]) -> (r: bool)
    ensures
        r == (a@ == b@),
{
    if a.len() != b.len() {
        return false;
    }
    let mut i: usize = 0;
    while i < a.len()
        invariant
            a@.len() == b@.len(),
            i <= a@.len(),
            forall|k: int| 0 <= k < i ==> a@[k] == b@[k],
        decreases a@.len() - i,
    {
        if a[i] != b[i] {
            return false;
        }
        i = i + 1;
    }
    assert(a@ =~= b@);
    true
}

fn key_byte_list_exec(s: &[u8], pos: usize) -> (r: Option<(Vec<u8>, usize)>)
    requires
        pos <= s@.len(),
    ensures
        match r {
            Some((k, n)) => key_byte_list(s@, pos as int, Seq::empty()) == Some(
                (k@, n as int),
            ),
            None => key_byte_list(s@, pos as int, Seq::empty()) is None,
        },
{
    let mut acc: Vec<u8> = Vec::new();
    let mut cur = pos;
    loop
        invariant
            pos <= cur <= s@.len(),
            key_byte_list(s@, pos as int, Seq::empty()) == key_byte_list(s@, cur as int, acc@),
        decreases s@.len() - cur,
    {
        if cur >= s.len() {
            return None;
        }
        if s[cur] == TOKEN_END {
            return Some((acc, cur + 1));
        }
        if s[cur] != TOKEN_INT {
            return None;
        }
        match int_token_exec(s, cur) {
            None => return None,
            Some((v, n)) => {
                if !(0 <= v && v <= 255 && cur < n && n <= s.len()) {
                    return None;
                }
                acc.push(v as u8);
                cur = n;
            },
        }
    }
}

fn key_token_exec(s: &[u8], pos: usize) -> (r: Option<(Vec<u8>, usize)>)
    requires
        pos <= s@.len(),
    ensures
        match r {
            Some((k, n)) => key_token(s@, pos as int) == Some((k@, n as int)),
            None => key_token(s@, pos as int) is None,
        },
{
    if pos >= s.len() {
        None
    } else if 48 <= s[pos] && s[pos] <= 57 {
        bytes_token_exec(s, pos)
    } else if s[pos] == TOKEN_LIST {
        key_byte_list_exec(s, pos + 1)
    } else {
        None
    }
}

/// The view of a value built from a list of values.
pub proof fn lemma_list_view_of(l: Vec<BValue>)
    ensures
        BValue::List(l)@ == Bencode::List(list_view(l@)),
{
    match BValue::List(l)@ {
        Bencode::List(sq) => {
            assert(sq =~= list_view(l@));
        },
        _ => {},
    }
}

/// The view of a value built from dictionary entries.
pub proof fn lemma_dict_view_of(d: Vec<(Vec<u8>, BValue)>)
    ensures
        BValue::Dict(d)@ == Bencode::Dict(dict_view(d@)),
{
    match BValue::Dict(d)@ {
        Bencode::Dict(sq) => {
            assert forall|i: int| 0 <= i < sq.len() implies sq[i] == dict_view(d@)[i] by {
                assert(sq[i] == (d@[i].0@, d@[i].1@));
            }
            assert(sq =~= dict_view(d@));
        },
        _ => {},
    }
}

/// Sets `k` to `v` among the entries `d`, whose keys are distinct.
fn dict_insert_exec(d: &mut Vec<(Vec<u8>, BValue)>, k: Vec<u8>, v: BValue)
    requires
        keys_unique(dict_view(old(d)@)),
    ensures
        dict_view(final(d)@) == dict_insert(dict_view(old(d)@), k@, v@),
        keys_unique(dict_view(final(d)@)),
{
    let ghost old_view = dict_view(d@);
    let mut i: usize = 0;
    while i < d.len()
        invariant
            d@ == old(d)@,
            old_view == dict_view(d@),
            keys_unique(old_view),
            i <= d@.len(),
            forall|j: int| 0 <= j < i ==> old_view[j].0 != k@,
        decreases d@.len() - i,
    {
        if bytes_eq(d[i].0.as_slice(), k.as_slice()) {
            proof {
                assert(has_key(old_view, k@)) by {
                    assert(old_view[i as int].0 == k@);
                }
                let c = choose|j: int| 0 <= j < old_view.len() && (#[trigger] old_view[j]).0 == k@;
                assert(c == i) by {
                    if c != i {
                        assert(old_view[c].0 != old_view[i as int].0);
                    }
                }
            }
            let ghost kv = k@;
            let ghost vv = v@;
            d.remove(i);
            d.insert(i, (k, v));
            proof {
                assert(dict_view(d@) =~= old_view.update(i as int, (kv, vv)));
                let nv = dict_view(d@);
                assert forall|a: int, b: int|
                    0 <= a < nv.len() && 0 <= b < nv.len() && a != b implies (#[trigger] nv[a]).0
                    != (#[trigger] nv[b]).0 by {
                    assert(old_view[a].0 != old_view[b].0);
                }
            }
            return;
        }
        i = i + 1;
    }
    proof {
        assert(!has_key(old_view, k@));
    }
    let ghost kv = k@;
    let ghost vv = v@;
    d.push((k, v));
    proof {
        assert(dict_view(d@) =~= old_view.push((kv, vv)));
        let nv = dict_view(d@);
        assert forall|a: int, b: int|
            0 <= a < nv.len() && 0 <= b < nv.len() && a != b implies (#[trigger] nv[a]).0
            != (#[trigger] nv[b]).0 by {
            if a < old_view.len() && b < old_view.len() {
                assert(old_view[a].0 != old_view[b].0);
            } else if a < old_view.len() {
                assert(old_view[a].0 != kv);
            } else {
                assert(old_view[b].0 != kv);
            }
        }
    }
}

fn parse_value_at(s: &[u8], pos: usize) -> (r: Result<(BValue, usize), BencodeError>)
    requires
        pos <= s@.len(),
    ensures
        match r {
            Ok((v, n)) => parse_value(s@, pos as int) == Some((v@, n as int)),
            Err(_) => parse_value(s@, pos as int) is None,
        },
    decreases s@.len() - pos, 0int,
{
    if pos >= s.len() {
        return Err(BencodeError::Invalid);
    }
    let c = s[pos];
    if c == TOKEN_INT {
        match int_token_exec(s, pos) {
            None => Err(BencodeError::Invalid),
            Some((v, n)) => Ok((BValue::Int(v), n)),
        }
    } else if 48 <= c && c <= 57 {
        match bytes_token_exec(s, pos) {
            None => Err(BencodeError::Invalid),
            Some((b, n)) => Ok((BValue::Bytes(b), n)),
        }
    } else if c == TOKEN_LIST {
        parse_list_at(s, pos + 1)
    } else if c == TOKEN_DICT {
        parse_dict_at(s, pos + 1)
    } else {
        Err(BencodeError::Invalid)
    }
}

fn parse_list_at(s: &[u8], pos: usize) -> (r: Result<(BValue, usize), BencodeError>)
    requires
        pos <= s@.len(),
    ensures
        match r {
            Ok((v, n)) => parse_list(s@, pos as int, Seq::empty()) == Some((v@, n as int)),
            Err(_) => parse_list(s@, pos as int, Seq::empty()) is None,
        },
    decreases s@.len() - pos, 1int,
{
    let mut items: Vec<BValue> = Vec::new();
    let mut cur = pos;
    assert(list_view(items@) =~= Seq::empty());
    loop
        invariant
            pos <= cur <= s@.len(),
            parse_list(s@, pos as int, Seq::empty()) == parse_list(
                s@,
                cur as int,
                list_view(items@),
            ),
        decreases s@.len() - cur,
    {
        if cur >= s.len() {
            return Err(BencodeError::Invalid);
        }
        if s[cur] == TOKEN_END {
            proof {
                lemma_list_view_of(items);
            }
            return Ok((BValue::List(items), cur + 1));
        }
        match parse_value_at(s, cur) {
            Err(e) => return Err(e),
            Ok((v, p)) => {
                if !(cur < p && p <= s.len()) {
                    return Err(BencodeError::Invalid);
                }
                let ghost before = list_view(items@);
                let ghost vv = v@;
                items.push(v);
                assert(list_view(items@) =~= before.push(vv));
                cur = p;
            },
        }
    }
}

fn parse_dict_at(s: &[u8], pos: usize) -> (r: Result<(BValue, usize), BencodeError>)
    requires
        pos <= s@.len(),
    ensures
        match r {
            Ok((v, n)) => parse_dict(s@, pos as int, Seq::empty()) == Some((v@, n as int)),
            Err(_) => parse_dict(s@, pos as int, Seq::empty()) is None,
        },
    decreases s@.len() - pos, 1int,
{
    let mut entries: Vec<(Vec<u8>, BValue)> = Vec::new();
    let mut cur = pos;
    assert(dict_view(entries@) =~= Seq::empty());
    loop
        invariant
            pos <= cur <= s@.len(),
            keys_unique(dict_view(entries@)),
            parse_dict(s@, pos as int, Seq::empty()) == parse_dict(
                s@,
                cur as int,
                dict_view(entries@),
            ),
        decreases s@.len() - cur,
    {
        if cur >= s.len() {
            return Err(BencodeError::Invalid);
        }
        if s[cur] == TOKEN_END {
            proof {
                lemma_dict_view_of(entries);
            }
            return Ok((BValue::Dict(entries), cur + 1));
        }
        let (k, p) = match key_token_exec(s, cur) {
            None => return Err(BencodeError::Invalid),
            Some(kp) => kp,
        };
        if !(cur < p && p <= s.len()) {
            return Err(BencodeError::Invalid);
        }
        let (v, q) = match parse_value_at(s, p) {
            Err(e) => return Err(e),
            Ok(vq) => vq,
        };
        if !(p < q && q <= s.len()) {
            return Err(BencodeError::Invalid);
        }
        dict_insert_exec(&mut entries, k, v);
        cur = q;
    }
}

/// Reads the bencoded value at the front of `s`; bytes after it are
/// ignored. Returns the value and the number of bytes it takes.
pub fn parse_bencode(s: &[u8]) -> (r: Result<(BValue, usize), BencodeError>)
    ensures
        match r {
            Ok((v, n)) => parse_value(s@, 0) == Some((v@, n as int)),
            Err(_) => parse_value(s@, 0) is None,
        },
{
    parse_value_at(s, 0)
}


// ---------------------------------------------------------------------------
// Canonical writing, and reading it back
// ---------------------------------------------------------------------------

/// The decimal digits of `n`, without leading zeros.
pub open spec fn dec_digits(n: nat) -> Seq<u8>
    decreases n,
{
    if n < 10 {
        seq![(48 + n) as u8]
    } else {
        dec_digits(n / 10).push((48 + n % 10) as u8)
    }
}

/// The text of an integer: a minus sign for negative numbers, then the
/// decimal digits of its magnitude.
pub open spec fn int_text(i: int) -> Seq<u8> {
    if i < 0 {
        seq![TOKEN_MINUS] + dec_digits((-i) as nat)
    } else {
        dec_digits(i as nat)
    }
}

/// The bencoding of an integer.
pub open spec fn encode_int(i: int) -> Seq<u8> {
    seq![TOKEN_INT] + int_text(i) + seq![TOKEN_END]
}

/// The bencoding of a byte string.
pub open spec fn encode_bytes(b: Seq<u8>) -> Seq<u8> {
    dec_digits(b.len()) + seq![TOKEN_COLON] + b
}

/// The bencoding of a value; dictionary entries are written in their order.
pub open spec fn encode(v: Bencode) -> Seq<u8>
    decreases v,
{
    match v {
        Bencode::Int(i) => encode_int(i),
        Bencode::Bytes(b) => encode_bytes(b),
        Bencode::List(items) => seq![TOKEN_LIST] + encode_list(items) + seq![TOKEN_END],
        Bencode::Dict(es) => seq![TOKEN_DICT] + encode_entries(es) + seq![TOKEN_END],
    }
}

/// The bencodings of the items, one after the other.
pub open spec fn encode_list(items: Seq<Bencode>) -> Seq<u8>
    decreases items,
{
    if items.len() == 0 {
        Seq::empty()
    } else {
        encode(items[0]) + encode_list(items.drop_first())
    }
}

/// The bencodings of the entries' keys and values, one after the other.
pub open spec fn encode_entries(es: Seq<(Seq<u8>, Bencode)>) -> Seq<u8>
    decreases es,
{
    if es.len() == 0 {
        Seq::empty()
    } else {
        encode_bytes(es[0].0) + encode(es[0].1) + encode_entries(es.drop_first())
    }
}

/// Whether a value can be read: integers in the 64-bit signed range, byte
/// strings and keys no longer than `usize::MAX`, and distinct keys in each
/// dictionary.
pub open spec fn wf(v: Bencode) -> bool
    decreases v,
{
    match v {
        Bencode::Int(i) => -(i64_neg_limit() as int) <= i <= i64_pos_limit(),
        Bencode::Bytes(b) => b.len() <= usize::MAX,
        Bencode::List(items) => wf_list(items),
        Bencode::Dict(es) => keys_unique(es) && wf_entries(es),
    }
}

/// Whether every item can be read.
pub open spec fn wf_list(items: Seq<Bencode>) -> bool
    decreases items,
{
    items.len() == 0 || (wf(items[0]) && wf_list(items.drop_first()))
}

/// Whether every entry can be read.
pub open spec fn wf_entries(es: Seq<(Seq<u8>, Bencode)>) -> bool
    decreases es,
{
    es.len() == 0 || (es[0].0.len() <= usize::MAX && wf(es[0].1) && wf_entries(es.drop_first()))
}

/// Whether `e` stands in `s` from position `p` on.
pub open spec fn occurs_at(s: Seq<u8>, p: int, e: Seq<u8>) -> bool {
    0 <= p && p + e.len() <= s.len() && s.subrange(p, p + e.len()) == e
}

proof fn lemma_occurs_split(s: Seq<u8>, p: int, a: Seq<u8>, b: Seq<u8>)
    requires
        occurs_at(s, p, a + b),
    ensures
        occurs_at(s, p, a),
        occurs_at(s, p + a.len(), b),
{
    assert(s.subrange(p, p + a.len()) =~= a) by {
        assert forall|k: int| 0 <= k < a.len() implies s.subrange(p, p + a.len())[k] == a[k] by {
            assert(s.subrange(p, p + (a + b).len())[k] == (a + b)[k]);
        }
    }
    assert(s.subrange(p + a.len(), p + a.len() + b.len()) =~= b) by {
        assert forall|k: int| 0 <= k < b.len() implies s.subrange(
            p + a.len(),
            p + a.len() + b.len(),
        )[k] == b[k] by {
            assert(s.subrange(p, p + (a + b).len())[a.len() + k] == (a + b)[a.len() + k]);
        }
    }
}

proof fn lemma_occurs_index(s: Seq<u8>, p: int, e: Seq<u8>, k: int)
    requires
        occurs_at(s, p, e),
        0 <= k < e.len(),
    ensures
        s[p + k] == e[k],
{
    assert(s.subrange(p, p + e.len())[k] == e[k]);
}

proof fn lemma_dec_digits(n: nat)
    ensures
        dec_digits(n).len() > 0,
        all_digits(dec_digits(n)),
        digits_value(dec_digits(n)) == n,
    decreases n,
{
    if n >= 10 {
        lemma_dec_digits(n / 10);
        let d = dec_digits(n / 10);
        let c = (48 + n % 10) as u8;
        assert(c as int == 48 + n % 10);
        assert(dec_digits(n) == d.push(c));
        assert(d.push(c).drop_last() =~= d);
        assert(d.push(c).last() == c);
        assert(digits_value(d.push(c)) == 10 * digits_value(d) + (c - 48) as nat);
        assert(10 * (n / 10) + n % 10 == n);
        assert forall|i: int| 0 <= i < dec_digits(n).len() implies is_digit(
            #[trigger] dec_digits(n)[i],
        ) by {
            if i < d.len() {
                assert(dec_digits(n)[i] == d[i]);
            }
        }
    } else {
        let c = (48 + n) as u8;
        assert(dec_digits(n) == seq![c]);
        assert(seq![c].drop_last() =~= Seq::<u8>::empty());
        assert(digits_value(seq![c]) == 10 * digits_value(Seq::<u8>::empty()) + (c - 48) as nat);
    }
}

proof fn lemma_int_text(i: int)
    requires
        -(i64_neg_limit() as int) <= i <= i64_pos_limit(),
    ensures
        int_of_body(int_text(i)) == Some(i),
        forall|k: int| 0 <= k < int_text(i).len() ==> #[trigger] int_text(i)[k] != TOKEN_END,
{
    let t = int_text(i);
    let n: nat = if i < 0 {
        (-i) as nat
    } else {
        i as nat
    };
    lemma_dec_digits(n);
    let d = dec_digits(n);
    assert forall|k: int| 0 <= k < t.len() implies #[trigger] t[k] != TOKEN_END by {
        if i < 0 {
            if k > 0 {
                assert(t[k] == d[k - 1]);
                assert(is_digit(d[k - 1]));
            }
        } else {
            assert(is_digit(d[k]));
        }
    }
    if i < 0 {
        assert(t.drop_first() =~= d);
        assert(t[0] == TOKEN_MINUS);
    } else {
        assert(is_digit(d[0]));
    }
}

proof fn lemma_find_byte_at(s: Seq<u8>, from: int, j: int, b: u8)
    requires
        0 <= from <= j < s.len(),
        s[j] == b,
        forall|k: int| from <= k < j ==> s[k] != b,
    ensures
        find_byte(s, from, b) == Some(j),
    decreases j - from,
{
    if from < j {
        lemma_find_byte_at(s, from + 1, j, b);
    }
}

proof fn lemma_subrange_of_occurs(s: Seq<u8>, p: int, e: Seq<u8>, a: int, b: int)
    requires
        occurs_at(s, p, e),
        0 <= a <= b <= e.len(),
    ensures
        s.subrange(p + a, p + b) == e.subrange(a, b),
{
    assert forall|k: int| 0 <= k < b - a implies s.subrange(p + a, p + b)[k] == e.subrange(
        a,
        b,
    )[k] by {
        lemma_occurs_index(s, p, e, a + k);
    }
    assert(s.subrange(p + a, p + b) =~= e.subrange(a, b));
}

proof fn lemma_int_token_encode(i: int, s: Seq<u8>, p: int)
    requires
        -(i64_neg_limit() as int) <= i <= i64_pos_limit(),
        occurs_at(s, p, encode_int(i)),
    ensures
        int_token(s, p) == Some((i, p + encode_int(i).len())),
{
    let t = int_text(i);
    let e = encode_int(i);
    let j = p + 1 + t.len();
    lemma_int_text(i);
    assert forall|k: int| p + 1 <= k < j implies s[k] != TOKEN_END by {
        lemma_occurs_index(s, p, e, k - p);
        assert(e[k - p] == t[k - p - 1]);
    }
    lemma_occurs_index(s, p, e, j - p);
    lemma_find_byte_at(s, p + 1, j, TOKEN_END);
    lemma_subrange_of_occurs(s, p, e, 1, (1 + t.len()) as int);
    assert(e.subrange(1, (1 + t.len()) as int) =~= t);
}

proof fn lemma_bytes_token_encode(b: Seq<u8>, s: Seq<u8>, p: int)
    requires
        b.len() <= usize::MAX,
        occurs_at(s, p, encode_bytes(b)),
    ensures
        bytes_token(s, p) == Some((b, p + encode_bytes(b).len())),
        is_digit(s[p]),
{
    let d = dec_digits(b.len());
    let e = encode_bytes(b);
    let j = p + d.len();
    lemma_dec_digits(b.len());
    assert forall|k: int| p <= k < j implies s[k] != TOKEN_COLON by {
        lemma_occurs_index(s, p, e, k - p);
        assert(e[k - p] == d[k - p]);
        assert(is_digit(d[k - p]));
    }
    lemma_occurs_index(s, p, e, j - p);
    lemma_occurs_index(s, p, e, 0);
    assert(e[0] == d[0]);
    assert(is_digit(d[0]));
    lemma_find_byte_at(s, p, j, TOKEN_COLON);
    lemma_subrange_of_occurs(s, p, e, 0, d.len() as int);
    assert(e.subrange(0, d.len() as int) =~= d);
    lemma_subrange_of_occurs(s, p, e, (d.len() + 1) as int, e.len() as int);
    assert(e.subrange((d.len() + 1) as int, e.len() as int) =~= b);
}

/// The canonical writing of a readable value reads back as that value,
/// wherever it stands and whatever follows it.
pub proof fn lemma_parse_encode(v: Bencode, s: Seq<u8>, p: int)
    requires
        wf(v),
        occurs_at(s, p, encode(v)),
    ensures
        parse_value(s, p) == Some((v, p + encode(v).len())),
    decreases v, 0int,
{
    match v {
        Bencode::Int(i) => {
            lemma_occurs_index(s, p, encode(v), 0);
            lemma_int_token_encode(i, s, p);
        },
        Bencode::Bytes(b) => {
            lemma_bytes_token_encode(b, s, p);
            lemma_occurs_index(s, p, encode(v), 0);
            lemma_dec_digits(b.len());
        },
        Bencode::List(items) => {
            let e = encode(v);
            lemma_occurs_index(s, p, e, 0);
            lemma_occurs_split(s, p, seq![TOKEN_LIST] + encode_list(items), seq![TOKEN_END]);
            lemma_occurs_split(s, p, seq![TOKEN_LIST], encode_list(items));
            let q = p + 1 + encode_list(items).len();
            lemma_occurs_index(s, q, seq![TOKEN_END], 0);
            lemma_parse_list_encode(items, Seq::empty(), s, p + 1);
            assert(Seq::<Bencode>::empty() + items =~= items);
        },
        Bencode::Dict(es) => {
            let e = encode(v);
            lemma_occurs_index(s, p, e, 0);
            lemma_occurs_split(s, p, seq![TOKEN_DICT] + encode_entries(es), seq![TOKEN_END]);
            lemma_occurs_split(s, p, seq![TOKEN_DICT], encode_entries(es));
            let q = p + 1 + encode_entries(es).len();
            lemma_occurs_index(s, q, seq![TOKEN_END], 0);
            assert(Seq::<(Seq<u8>, Bencode)>::empty() + es =~= es);
            lemma_parse_dict_encode(es, Seq::empty(), s, p + 1);
        },
    }
}

proof fn lemma_parse_list_encode(items: Seq<Bencode>, acc: Seq<Bencode>, s: Seq<u8>, p: int)
    requires
        wf_list(items),
        occurs_at(s, p, encode_list(items)),
        p + encode_list(items).len() < s.len(),
        s[p + encode_list(items).len()] == TOKEN_END,
    ensures
        parse_list(s, p, acc) == Some(
            (Bencode::List(acc + items), p + encode_list(items).len() + 1),
        ),
    decreases items, 1int,
{
    if items.len() == 0 {
        assert(acc + items =~= acc);
    } else {
        let x = items[0];
        let tail = items.drop_first();
        lemma_occurs_split(s, p, encode(x), encode_list(tail));
        lemma_parse_encode(x, s, p);
        let p2 = p + encode(x).len();
        lemma_occurs_index(s, p, encode(x), 0);
        lemma_parse_list_encode(tail, acc.push(x), s, p2);
        assert(acc.push(x) + tail =~= acc + items);
    }
}

proof fn lemma_parse_dict_encode(
    es: Seq<(Seq<u8>, Bencode)>,
    acc: Seq<(Seq<u8>, Bencode)>,
    s: Seq<u8>,
    p: int,
)
    requires
        wf_entries(es),
        keys_unique(acc + es),
        occurs_at(s, p, encode_entries(es)),
        p + encode_entries(es).len() < s.len(),
        s[p + encode_entries(es).len()] == TOKEN_END,
    ensures
        parse_dict(s, p, acc) == Some(
            (Bencode::Dict(acc + es), p + encode_entries(es).len() + 1),
        ),
    decreases es, 1int,
{
    if es.len() == 0 {
        assert(acc + es =~= acc);
    } else {
        let (k, x) = es[0];
        let tail = es.drop_first();
        lemma_occurs_split(s, p, encode_bytes(k) + encode(x), encode_entries(tail));
        lemma_occurs_split(s, p, encode_bytes(k), encode(x));
        lemma_bytes_token_encode(k, s, p);
        let p1 = p + encode_bytes(k).len();
        lemma_parse_encode(x, s, p1);
        let p2 = p1 + encode(x).len();
        lemma_occurs_index(s, p1, encode(x), 0);
        lemma_dec_digits(k.len());
        assert(key_token(s, p) == Some((k, p1)));
        assert(!has_key(acc, k)) by {
            if has_key(acc, k) {
                let c = choose|c: int| 0 <= c < acc.len() && (#[trigger] acc[c]).0 == k;
                assert((acc + es)[c].0 == (acc + es)[acc.len() as int].0);
            }
        }
        assert(dict_insert(acc, k, x) == acc.push((k, x)));
        assert(acc.push((k, x)) + tail =~= acc + es);
        lemma_parse_dict_encode(tail, acc.push((k, x)), s, p2);
    }
}


// ---------------------------------------------------------------------------
// Writing
// ---------------------------------------------------------------------------

/// Writing one more item after a list's items.
pub proof fn lemma_encode_list_push(items: Seq<Bencode>, x: Bencode)
    ensures
        encode_list(items.push(x)) == encode_list(items) + encode(x),
    decreases items.len(),
{
    if items.len() == 0 {
        let ip = items.push(x);
        assert(ip[0] == x);
        assert(ip.drop_first() =~= Seq::<Bencode>::empty());
        assert(encode_list(ip.drop_first()) == Seq::<u8>::empty());
        assert(encode_list(ip) == encode(x) + encode_list(ip.drop_first()));
        assert(encode(x) + Seq::<u8>::empty() =~= encode(x));
        assert(encode_list(items) + encode(x) =~= encode(x));
    } else {
        lemma_encode_list_push(items.drop_first(), x);
        assert(items.push(x).drop_first() =~= items.drop_first().push(x));
        assert(encode_list(items.push(x)) =~= encode(items[0]) + (encode_list(items.drop_first())
            + encode(x)));
    }
}

/// Writing one more entry after a dictionary's entries.
pub proof fn lemma_encode_entries_push(es: Seq<(Seq<u8>, Bencode)>, k: Seq<u8>, x: Bencode)
    ensures
        encode_entries(es.push((k, x))) == encode_entries(es) + encode_bytes(k) + encode(x),
    decreases es.len(),
{
    if es.len() == 0 {
        let ep = es.push((k, x));
        assert(ep[0] == (k, x));
        assert(ep.drop_first() =~= Seq::<(Seq<u8>, Bencode)>::empty());
        assert(encode_entries(ep.drop_first()) == Seq::<u8>::empty());
        assert(encode_entries(ep) == encode_bytes(k) + encode(x) + encode_entries(ep.drop_first()));
        assert(encode_bytes(k) + encode(x) + Seq::<u8>::empty() =~= encode_bytes(k) + encode(x));
        assert(encode_entries(es) + encode_bytes(k) + encode(x) =~= encode_bytes(k) + encode(x));
    } else {
        lemma_encode_entries_push(es.drop_first(), k, x);
        assert(es.push((k, x)).drop_first() =~= es.drop_first().push((k, x)));
        assert(encode_entries(es.push((k, x))) =~= encode_bytes(es[0].0) + encode(es[0].1) + (
        encode_entries(es.drop_first()) + encode_bytes(k) + encode(x)));
    }
}

/// Appends the decimal digits of `n`.
pub fn push_decimal(n: u64, out: &mut Vec<u8>)
    ensures
        final(out)@ == old(out)@ + dec_digits(n as nat),
    decreases n,
{
    if n >= 10 {
        push_decimal(n / 10, out);
    }
    out.push(48 + (n % 10) as u8);
    proof {
        if n >= 10 {
            assert(out@ =~= old(out)@ + dec_digits(n as nat));
        } else {
            assert(out@ =~= old(out)@ + dec_digits(n as nat));
        }
    }
}

/// Appends the bencoding of the non-negative integer `n`.
pub fn write_uint(n: u64, out: &mut Vec<u8>)
    ensures
        final(out)@ == old(out)@ + encode(Bencode::Int(n as int)),
{
    out.push(TOKEN_INT);
    push_decimal(n, out);
    out.push(TOKEN_END);
    assert(out@ =~= old(out)@ + encode(Bencode::Int(n as int)));
}

/// Appends the bencoding of the byte string `b`.
pub fn write_bytes(b: &[u8], out: &mut Vec<u8>)
    ensures
        final(out)@ == old(out)@ + encode(Bencode::Bytes(b@)),
{
    push_decimal(b.len() as u64, out);
    out.push(TOKEN_COLON);
    crate::seqs::append_bytes(out, b);
    assert(out@ =~= old(out)@ + encode(Bencode::Bytes(b@)));
}

} // verus!
