use vstd::prelude::*;

use crate::error::UtilsError;

verus! {

/// Size of the local window that every operation loads a buffer into.
pub const WINDOW: usize = 512;

/// The window that a buffer of at most `WINDOW` bytes is loaded into: its
/// bytes, then zeros.
pub open spec fn window(s: Seq<u8>) -> Seq<u8> {
    s + Seq::new((WINDOW - s.len()) as nat, |i: int| 0u8)
}

/// The pieces of a buffer between occurrences of `d`, for a buffer read so far.
/// One piece for the empty buffer; each delimiter starts a new piece.
pub open spec fn split_pieces(s: Seq<u8>, d: u8) -> Seq<Seq<u8>>
    decreases s.len(),
{
    if s.len() == 0 {
        seq![Seq::empty()]
    } else {
        let prev = split_pieces(s.drop_last(), d);
        if s.last() == d {
            prev.push(Seq::empty())
        } else {
            prev.update(prev.len() - 1, prev.last().push(s.last()))
        }
    }
}

/// What `split` returns: no piece at all for the empty buffer.
pub open spec fn split_spec(s: Seq<u8>, d: u8) -> Seq<Seq<u8>> {
    if s.len() == 0 {
        Seq::empty()
    } else {
        split_pieces(s, d)
    }
}

/// The pieces put back together, with `d` between two neighbours.
pub open spec fn join(parts: Seq<Seq<u8>>, d: u8) -> Seq<u8>
    decreases parts.len(),
{
    if parts.len() == 0 {
        Seq::empty()
    } else if parts.len() == 1 {
        parts[0]
    } else {
        join(parts.drop_last(), d).push(d) + parts.last()
    }
}

/// ASCII lower case of one byte; other bytes are kept.
pub open spec fn lower(c: u8) -> u8 {
    if 65 <= c <= 90 {
        (c + 32) as u8
    } else {
        c
    }
}

/// ASCII upper case of one byte; other bytes are kept.
pub open spec fn upper(c: u8) -> u8 {
    if 97 <= c <= 122 {
        (c - 32) as u8
    } else {
        c
    }
}

/// The two buffers have the same length and agree byte by byte up to case.
pub open spec fn same_ignoring_case(a: Seq<u8>, b: Seq<u8>) -> bool {
    &&& a.len() == b.len()
    &&& forall|i: int| 0 <= i < a.len() ==> lower(a[i]) == lower(b[i])
}

/// `p` is a prefix of `s`.
pub open spec fn starts_with(s: Seq<u8>, p: Seq<u8>) -> bool {
    p.len() <= s.len() && s.subrange(0, p.len() as int) == p
}

/// `p` occurs somewhere in `s`.
pub open spec fn occurs_in(s: Seq<u8>, p: Seq<u8>) -> bool {
    exists|i: int| 0 <= i <= s.len() - p.len() && #[trigger] s.subrange(i, i + p.len()) == p
}

/// Each occurrence of `pat`, taken from left to right without overlap, put
/// in place by `by`.
pub open spec fn replace_spec(s: Seq<u8>, pat: Seq<u8>, by: Seq<u8>) -> Seq<u8>
    decreases s.len(),
{
    if s.len() == 0 {
        Seq::empty()
    } else if pat.len() > 0 && starts_with(s, pat) {
        by + replace_spec(s.subrange(pat.len() as int, s.len() as int), pat, by)
    } else {
        seq![s[0]] + replace_spec(s.subrange(1, s.len() as int), pat, by)
    }
}

/// `k` is the position of the last `d` in `s`.
pub open spec fn last_index_of(s: Seq<u8>, d: u8, k: int) -> bool {
    &&& 0 <= k < s.len()
    &&& s[k] == d
    &&& forall|j: int| k < j < s.len() ==> s[j] != d
}

/// The numeric value of an ASCII digit or letter (`0`-`9`, then `a`-`z` and
/// `A`-`Z` from 10); 36 for any other byte, which is a digit in no radix.
pub open spec fn digit_value(c: u8) -> nat {
    if 48 <= c <= 57 {
        (c - 48) as nat
    } else if 97 <= c <= 122 {
        (c - 87) as nat
    } else if 65 <= c <= 90 {
        (c - 55) as nat
    } else {
        36
    }
}

/// Every byte of `s` is a digit in `radix`.
pub open spec fn all_digits(s: Seq<u8>, radix: nat) -> bool {
    forall|i: int| 0 <= i < s.len() ==> digit_value(#[trigger] s[i]) < radix
}

/// The number that the digits of `s` write in `radix`, most significant first.
pub open spec fn digits_value(s: Seq<u8>, radix: nat) -> nat
    decreases s.len(),
{
    if s.len() == 0 {
        0
    } else {
        digits_value(s.drop_last(), radix) * radix + digit_value(s.last())
    }
}

/// The text of a window: its bytes before the first zero byte.
pub open spec fn text_of(s: Seq<u8>) -> Seq<u8>
    decreases s.len(),
{
    if s.len() == 0 || s[0] == 0 {
        Seq::empty()
    } else {
        seq![s[0]] + text_of(s.subrange(1, s.len() as int))
    }
}

/// The number that the text `t` writes in `radix`, if every byte is a digit
/// and the number fits in 64 bits.
pub open spec fn decode_spec(t: Seq<u8>, radix: nat) -> Option<u64> {
    if all_digits(t, radix) && digits_value(t, radix) <= u64::MAX {
        Some(digits_value(t, radix) as u64)
    } else {
        None
    }
}

/// Lexicographic order of two byte strings of one length.
pub open spec fn lex_cmp(a: Seq<u8>, b: Seq<u8>) -> core::cmp::Ordering
    decreases a.len(),
{
    if a.len() == 0 || b.len() == 0 {
        core::cmp::Ordering::Equal
    } else if a[0] < b[0] {
        core::cmp::Ordering::Less
    } else if a[0] > b[0] {
        core::cmp::Ordering::Greater
    } else {
        lex_cmp(a.subrange(1, a.len() as int), b.subrange(1, b.len() as int))
    }
}

/// The text of `s` is its first `k` bytes when they hold no zero and a zero
/// or the end follows.
pub proof fn lemma_text_of(s: Seq<u8>, k: int)
    requires
        0 <= k <= s.len(),
        forall|j: int| 0 <= j < k ==> s[j] != 0,
        k == s.len() || s[k] == 0,
    ensures
        text_of(s) == s.subrange(0, k),
    decreases k,
{
    if k == 0 {
        assert(s.subrange(0, 0) =~= Seq::<u8>::empty());
    } else {
        let t = s.subrange(1, s.len() as int);
        lemma_text_of(t, k - 1);
        assert(s.subrange(0, k) =~= seq![s[0]] + t.subrange(0, k - 1));
    }
}

/// The text of `s` runs at least past `i` when no byte up to `i` is zero.
proof fn lemma_text_of_extends(s: Seq<u8>, i: int)
    requires
        0 <= i < s.len(),
        forall|j: int| 0 <= j <= i ==> s[j] != 0,
    ensures
        text_of(s).len() > i,
        text_of(s).subrange(0, i + 1) == s.subrange(0, i + 1),
    decreases i,
{
    let t = s.subrange(1, s.len() as int);
    if i == 0 {
        assert(text_of(s).subrange(0, 1) =~= s.subrange(0, 1));
    } else {
        lemma_text_of_extends(t, i - 1);
        assert(text_of(s).subrange(0, i + 1) =~= seq![s[0]] + text_of(t).subrange(0, i));
        assert(s.subrange(0, i + 1) =~= seq![s[0]] + t.subrange(0, i));
    }
}

/// A value written by text is at least that of any of its prefixes.
proof fn lemma_value_prefix(s: Seq<u8>, k: int, radix: nat)
    requires
        0 <= k <= s.len(),
        radix > 0,
    ensures
        digits_value(s.subrange(0, k), radix) <= digits_value(s, radix),
    decreases s.len(),
{
    if k == s.len() {
        assert(s.subrange(0, k) =~= s);
    } else {
        let p = s.drop_last();
        lemma_value_prefix(p, k, radix);
        assert(p.subrange(0, k) =~= s.subrange(0, k));
        let v = digits_value(p, radix);
        assert(v <= v * radix) by (nonlinear_arith)
            requires
                radix > 0,
        ;
    }
}

/// Adding a byte to the last part adds it to the end of the joined bytes.
proof fn lemma_join_extend_last(parts: Seq<Seq<u8>>, d: u8, c: u8)
    requires
        parts.len() > 0,
    ensures
        join(parts.update(parts.len() - 1, parts.last().push(c)), d) == join(parts, d).push(c),
{
    let up = parts.update(parts.len() - 1, parts.last().push(c));
    if parts.len() > 1 {
        assert(up.drop_last() =~= parts.drop_last());
        assert(join(parts, d).push(c) =~= join(parts.drop_last(), d).push(d) + parts.last().push(c));
    }
}

/// The pieces of `s`, joined with `d`, give `s` back.
proof fn lemma_join_split_pieces(s: Seq<u8>, d: u8)
    ensures
        split_pieces(s, d).len() > 0,
        join(split_pieces(s, d), d) == s,
    decreases s.len(),
{
    if s.len() == 0 {
        assert(join(seq![Seq::<u8>::empty()], d) == Seq::<u8>::empty());
    } else {
        let prev = split_pieces(s.drop_last(), d);
        lemma_join_split_pieces(s.drop_last(), d);
        if s.last() == d {
            let next = prev.push(Seq::<u8>::empty());
            assert(next.drop_last() =~= prev);
            assert(join(next, d) =~= s);
        } else {
            lemma_join_extend_last(prev, d, s.last());
            assert(s.drop_last().push(s.last()) =~= s);
        }
    }
}

/// Splitting a buffer at `d` and joining the parts with `d` gives the buffer back.
pub proof fn lemma_split_join(s: Seq<u8>, d: u8)
    ensures
        join(split_spec(s, d), d) == s,
{
    if s.len() == 0 {
        assert(join(Seq::<Seq<u8>>::empty(), d) =~= s);
    } else {
        lemma_join_split_pieces(s, d);
    }
}

/// A buffer equals itself up to case.
pub proof fn lemma_equals_ignore_case_reflexive(s: Seq<u8>)
    ensures
        same_ignoring_case(s, s),
{
}

/// Buffers of different lengths are never equal up to case.
pub proof fn lemma_equals_ignore_case_lengths(a: Seq<u8>, b: Seq<u8>)
    requires
        a.len() != b.len(),
    ensures
        !same_ignoring_case(a, b),
{
}

/// Copies `src[lo..hi]` into a new vector.
fn copy_range(src: &[u8; 512], lo: usize, hi: usize) -> (r: Vec<u8>)
    requires
        lo <= hi <= WINDOW,
    ensures
        r@ == src@.subrange(lo as int, hi as int),
{
    let mut r: Vec<u8> = Vec::new();
    let mut i: usize = lo;
    while i < hi
        invariant
            lo <= i <= hi <= WINDOW,
            r@ == src@.subrange(lo as int, i as int),
        decreases hi - i,
    {
        r.push(src[i]);
        i += 1;
    }
    r
}

fn lower_byte(c: u8) -> (r: u8)
    ensures
        r == lower(c),
{
    if 65 <= c && c <= 90 {
        c + 32
    } else {
        c
    }
}

fn upper_byte(c: u8) -> (r: u8)
    ensures
        r == upper(c),
{
    if 97 <= c && c <= 122 {
        c - 32
    } else {
        c
    }
}

/// Whether `pat` stands in the window at `i`, inside the first `len` bytes.
fn matches_at(w: &[u8; 512], len: usize, i: usize, pat: &[u8]) -> (r: bool)
    requires
        i <= len <= WINDOW,
    ensures
        r == starts_with(w@.subrange(i as int, len as int), pat@),
{
    let m = pat.len();
    if m > len - i {
        return false;
    }
    let mut j: usize = 0;
    while j < m
        invariant
            i + m <= len <= WINDOW,
            forall|k: int| 0 <= k < j ==> w@[i + k] == pat@[k],
            j <= m,
            m == pat@.len(),
        decreases m - j,
    {
        if w[i + j] != pat[j] {
            assert(w@.subrange(i as int, len as int).subrange(0, m as int)[j as int] != pat@[j as int]);
            return false;
        }
        j += 1;
    }
    assert(w@.subrange(i as int, len as int).subrange(0, m as int) =~= pat@);
    true
}

fn digit_of(c: u8) -> (r: u64)
    ensures
        r == digit_value(c),
{
    if 48 <= c && c <= 57 {
        (c - 48) as u64
    } else if 97 <= c && c <= 122 {
        (c - 87) as u64
    } else if 65 <= c && c <= 90 {
        (c - 55) as u64
    } else {
        36
    }
}

/// Reads the text of a window as a number in `radix`.
fn decode_window(w: &[u8; 512], radix: u64) -> (r: Option<u64>)
    requires
        2 <= radix <= 36,
    ensures
        r == decode_spec(text_of(w@), radix as nat),
{
    let mut acc: u64 = 0;
    let mut i: usize = 0;
    while i < WINDOW
        invariant
            i <= WINDOW,
            w@.len() == WINDOW,
            2 <= radix <= 36,
            forall|j: int| 0 <= j < i ==> w@[j] != 0,
            all_digits(w@.subrange(0, i as int), radix as nat),
            acc == digits_value(w@.subrange(0, i as int), radix as nat),
        ensures
            i <= WINDOW,
            i == WINDOW || w@[i as int] == 0,
            forall|j: int| 0 <= j < i ==> w@[j] != 0,
            all_digits(w@.subrange(0, i as int), radix as nat),
            acc == digits_value(w@.subrange(0, i as int), radix as nat),
        decreases WINDOW - i,
    {
        let c = w[i];
        if c == 0 {
            break;
        }
        let ghost pre = w@.subrange(0, i as int);
        let ghost cur = w@.subrange(0, i + 1);
        assert(cur.drop_last() =~= pre);
        let d = digit_of(c);
        if d >= radix {
            proof {
                lemma_text_of_extends(w@, i as int);
                assert(text_of(w@)[i as int] == text_of(w@).subrange(0, i + 1)[i as int]);
                assert(text_of(w@)[i as int] == c);
            }
            return None;
        }
        let next = match acc.checked_mul(radix) {
            Some(m) => m.checked_add(d),
            None => None,
        };
        match next {
            Some(n) => {
                acc = n;
            },
            None => {
                proof {
                    let t = text_of(w@);
                    lemma_text_of_extends(w@, i as int);
                    lemma_value_prefix(t, i + 1, radix as nat);
                    assert(digits_value(cur, radix as nat) > u64::MAX);
                }
                return None;
            },
        }
        i += 1;
        assert(all_digits(w@.subrange(0, i as int), radix as nat)) by {
            assert(forall|j: int| 0 <= j < i ==> #[trigger] w@.subrange(0, i as int)[j] == w@[j]);
            assert(forall|j: int| 0 <= j < i - 1 ==> w@.subrange(0, i - 1)[j] == w@[j]);
        }
    }
    proof {
        lemma_text_of(w@, i as int);
    }
    assert(acc == digits_value(w@.subrange(0, i as int), radix as nat));
    Some(acc)
}

/// Operations on a byte buffer of at most `WINDOW` bytes. Each one loads the
/// buffer into the window first and fails with `BufferTooLarge` when it does
/// not fit.
pub trait ManagedBufferUtils: Sized {
    /// The bytes of the buffer.
    spec fn bytes(&self) -> Seq<u8>;

    /// Loads the buffer into a 512-byte window, zero-filled past its length.
    fn load_512_bytes(&self) -> (r: Result<[u8; 512], UtilsError>)
        ensures
            self.bytes().len() > WINDOW <==> r is Err,
            r is Err ==> r == Err::<[u8; 512], UtilsError>(UtilsError::BufferTooLarge),
            r matches Ok(w) ==> w@ == window(self.bytes()),
            r matches Ok(w) ==> w@.subrange(0, self.bytes().len() as int) == self.bytes(),
    ;

    /// Splits the buffer at each occurrence of `d`; the delimiters are dropped.
    fn split(&self, d: u8) -> (r: Result<Vec<Vec<u8>>, UtilsError>)
        ensures
            self.bytes().len() > WINDOW <==> r is Err,
            r is Err ==> r == Err::<Vec<Vec<u8>>, UtilsError>(UtilsError::BufferTooLarge),
            r matches Ok(v) ==> v@.map_values(|p: Vec<u8>| p@) == split_spec(self.bytes(), d),
    ;

    /// The bytes before and after the last `d` of the buffer.
    fn split_last_occurence(&self, d: u8) -> (r: Result<(Vec<u8>, Vec<u8>), UtilsError>)
        ensures
            self.bytes().len() > WINDOW ==> r == Err::<(Vec<u8>, Vec<u8>), UtilsError>(
                UtilsError::BufferTooLarge,
            ),
            self.bytes().len() <= WINDOW && !self.bytes().contains(d) ==> r == Err::<
                (Vec<u8>, Vec<u8>),
                UtilsError,
            >(UtilsError::DelimiterNotFound),
            self.bytes().len() <= WINDOW && self.bytes().contains(d) ==> r is Ok,
            r matches Ok(p) ==> exists|k: int|
                last_index_of(self.bytes(), d, k) && p.0@ == self.bytes().subrange(0, k) && p.1@
                    == self.bytes().subrange(k + 1, self.bytes().len() as int),
    ;

    /// The buffer without its first byte.
    fn remove_first_char(&self) -> (r: Result<Vec<u8>, UtilsError>)
        ensures
            self.bytes().len() > WINDOW ==> r == Err::<Vec<u8>, UtilsError>(UtilsError::BufferTooLarge),
            self.bytes().len() == 0 ==> r == Err::<Vec<u8>, UtilsError>(UtilsError::BufferTooSmall),
            0 < self.bytes().len() <= WINDOW ==> r is Ok,
            r matches Ok(v) ==> v@ == self.bytes().subrange(1, self.bytes().len() as int),
    ;

    /// The buffer without its first and its last byte.
    fn remove_first_and_last_char(&self) -> (r: Result<Vec<u8>, UtilsError>)
        ensures
            self.bytes().len() > WINDOW ==> r == Err::<Vec<u8>, UtilsError>(UtilsError::BufferTooLarge),
            self.bytes().len() <= 1 ==> r == Err::<Vec<u8>, UtilsError>(UtilsError::BufferTooSmall),
            1 < self.bytes().len() <= WINDOW ==> r is Ok,
            r matches Ok(v) ==> v@ == self.bytes().subrange(1, self.bytes().len() - 1),
    ;

    /// The buffer with its first byte in ASCII upper case.
    fn capitalize(&self) -> (r: Result<Vec<u8>, UtilsError>)
        ensures
            self.bytes().len() > WINDOW ==> r == Err::<Vec<u8>, UtilsError>(UtilsError::BufferTooLarge),
            self.bytes().len() == 0 ==> r == Err::<Vec<u8>, UtilsError>(UtilsError::BufferEmpty),
            0 < self.bytes().len() <= WINDOW ==> r is Ok,
            r matches Ok(v) ==> v@ == self.bytes().update(0, upper(self.bytes()[0])),
    ;

    /// Whether the two buffers are equal up to ASCII case. Buffers of different
    /// lengths are never loaded.
    fn equals_ignore_case(&self, other: &Self) -> (r: Result<bool, UtilsError>)
        ensures
            r == (if self.bytes().len() != other.bytes().len() {
                Ok(false)
            } else if self.bytes().len() > WINDOW {
                Err(UtilsError::BufferTooLarge)
            } else {
                Ok(same_ignoring_case(self.bytes(), other.bytes()))
            }),
    ;

    /// The buffer with `c` added at its end unless it already ends with `c`.
    fn append_trailing_character_if_missing(&self, c: u8) -> (r: Result<Vec<u8>, UtilsError>)
        ensures
            self.bytes().len() > WINDOW ==> r == Err::<Vec<u8>, UtilsError>(UtilsError::BufferTooLarge),
            self.bytes().len() == 0 ==> r == Err::<Vec<u8>, UtilsError>(UtilsError::BufferEmpty),
            0 < self.bytes().len() <= WINDOW ==> r is Ok,
            r matches Ok(v) ==> v@ == (if self.bytes().last() == c {
                self.bytes()
            } else {
                self.bytes().push(c)
            }),
    ;

    /// The buffer with each occurrence of `pat`, from left to right, replaced
    /// by the bytes of `by`.
    fn replace(&self, pat: &[u8], by: &Self) -> (r: Result<Vec<u8>, UtilsError>)
        requires
            pat@.len() > 0,
        ensures
            self.bytes().len() > WINDOW <==> r is Err,
            r is Err ==> r == Err::<Vec<u8>, UtilsError>(UtilsError::BufferTooLarge),
            r matches Ok(v) ==> v@ == replace_spec(self.bytes(), pat@, by.bytes()),
    ;

    /// Whether `pat` occurs in the buffer.
    fn contains(&self, pat: &[u8]) -> (r: Result<bool, UtilsError>)
        requires
            pat@.len() > 0,
        ensures
            r == (if self.bytes().len() > WINDOW {
                Err(UtilsError::BufferTooLarge)
            } else {
                Ok(occurs_in(self.bytes(), pat@))
            }),
    ;

    /// The buffer in ASCII lower case.
    fn to_lowercase(&self) -> (r: Result<Vec<u8>, UtilsError>)
        ensures
            self.bytes().len() > WINDOW <==> r is Err,
            r is Err ==> r == Err::<Vec<u8>, UtilsError>(UtilsError::BufferTooLarge),
            r matches Ok(v) ==> v@ == self.bytes().map_values(|c: u8| lower(c)),
    ;
    /// The number that the text of the loaded window writes in hexadecimal
    /// (digits of either case); `None` when a byte of it is no hex digit or
    /// the number does not fit in 64 bits.
    fn hex_to_u64(&self) -> (r: Result<Option<u64>, UtilsError>)
        ensures
            r == (if self.bytes().len() > WINDOW {
                Err(UtilsError::BufferTooLarge)
            } else {
                Ok(decode_spec(text_of(window(self.bytes())), 16))
            }),
    ;

    /// The number that the text of the loaded window writes in decimal;
    /// `None` when a byte of it is no decimal digit or the number does not fit
    /// in 64 bits.
    fn ascii_to_u64(&self) -> (r: Result<Option<u64>, UtilsError>)
        ensures
            r == (if self.bytes().len() > WINDOW {
                Err(UtilsError::BufferTooLarge)
            } else {
                Ok(decode_spec(text_of(window(self.bytes())), 10))
            }),
    ;

    /// The lexicographic order of the two loaded windows.
    fn compare(&self, other: &Self) -> (r: Result<core::cmp::Ordering, UtilsError>)
        ensures
            r == (if self.bytes().len() > WINDOW || other.bytes().len() > WINDOW {
                Err(UtilsError::BufferTooLarge)
            } else {
                Ok(lex_cmp(window(self.bytes()), window(other.bytes())))
            }),
    ;
}

impl ManagedBufferUtils for Vec<u8> {
    open spec fn bytes(&self) -> Seq<u8> {
        self@
    }

    fn load_512_bytes(&self) -> (r: Result<[u8; 512], UtilsError>) {
        if self.len() > WINDOW {
            return Err(UtilsError::BufferTooLarge);
        }
        let mut w: [u8; 512] = [0u8; 512];
        let mut i: usize = 0;
        while i < self.len()
            invariant
                self@.len() <= WINDOW,
                i <= self@.len(),
                w@.len() == WINDOW,
                forall|k: int| 0 <= k < i ==> w@[k] == self@[k],
                forall|k: int| i <= k < WINDOW ==> w@[k] == 0,
            decreases self@.len() - i,
        {
            w[i] = self[i];
            i += 1;
        }
        assert(w@ =~= window(self@));
        assert(w@.subrange(0, self@.len() as int) =~= self@);
        Ok(w)
    }

    fn split(&self, d: u8) -> (r: Result<Vec<Vec<u8>>, UtilsError>) {
        let w = self.load_512_bytes()?;
        let len = self.len();
        let mut out: Vec<Vec<u8>> = Vec::new();
        if len == 0 {
            assert(out@.map_values(|p: Vec<u8>| p@) =~= split_spec(self@, d));
            return Ok(out);
        }
        let mut start: usize = 0;
        let mut i: usize = 0;
        assert(self@.subrange(0, 0) =~= Seq::<u8>::empty());
        assert(out@.map_values(|p: Vec<u8>| p@).push(self@.subrange(0, 0)) =~= seq![Seq::<u8>::empty()]);
        while i < len
            invariant
                len == self@.len() <= WINDOW,
                w@ == window(self@),
                start <= i <= len,
                out@.map_values(|p: Vec<u8>| p@).push(self@.subrange(start as int, i as int))
                    == split_pieces(self@.subrange(0, i as int), d),
            decreases len - i,
        {
            let ghost pre = self@.subrange(0, i as int);
            let ghost cur = self@.subrange(0, i + 1);
            assert(cur.drop_last() =~= pre);
            assert(cur.last() == w@[i as int]);
            if w[i] == d {
                let piece = copy_range(&w, start, i);
                assert(piece@ =~= self@.subrange(start as int, i as int));
                out.push(piece);
                start = i + 1;
                assert(self@.subrange(start as int, i + 1) =~= Seq::<u8>::empty());
            } else {
                assert(self@.subrange(start as int, i + 1) =~= self@.subrange(start as int, i as int).push(w@[i as int]));
            }
            i += 1;
        }
        let piece = copy_range(&w, start, len);
        assert(piece@ =~= self@.subrange(start as int, len as int));
        out.push(piece);
        assert(self@.subrange(0, len as int) =~= self@);
        assert(out@.map_values(|p: Vec<u8>| p@) =~= split_spec(self@, d));
        Ok(out)
    }
    fn split_last_occurence(&self, d: u8) -> (r: Result<(Vec<u8>, Vec<u8>), UtilsError>) {
        let w = self.load_512_bytes()?;
        let len = self.len();
        let mut i: usize = len;
        while i > 0
            invariant
                i <= len == self@.len() <= WINDOW,
                w@ == window(self@),
                forall|j: int| i <= j < len ==> self@[j] != d,
            decreases i,
        {
            i -= 1;
            if w[i] == d {
                let first = copy_range(&w, 0, i);
                let second = copy_range(&w, i + 1, len);
                assert(first@ =~= self@.subrange(0, i as int));
                assert(second@ =~= self@.subrange(i + 1, len as int));
                assert(last_index_of(self@, d, i as int));
                return Ok((first, second));
            }
        }
        assert(!self@.contains(d));
        Err(UtilsError::DelimiterNotFound)
    }

    fn remove_first_char(&self) -> (r: Result<Vec<u8>, UtilsError>) {
        let w = self.load_512_bytes()?;
        if self.len() == 0 {
            return Err(UtilsError::BufferTooSmall);
        }
        let r = copy_range(&w, 1, self.len());
        assert(r@ =~= self@.subrange(1, self@.len() as int));
        Ok(r)
    }

    fn remove_first_and_last_char(&self) -> (r: Result<Vec<u8>, UtilsError>) {
        let w = self.load_512_bytes()?;
        if self.len() <= 1 {
            return Err(UtilsError::BufferTooSmall);
        }
        let r = copy_range(&w, 1, self.len() - 1);
        assert(r@ =~= self@.subrange(1, self@.len() - 1));
        Ok(r)
    }

    fn capitalize(&self) -> (r: Result<Vec<u8>, UtilsError>) {
        let w = self.load_512_bytes()?;
        if self.len() == 0 {
            return Err(UtilsError::BufferEmpty);
        }
        let mut o: Vec<u8> = Vec::new();
        o.push(upper_byte(w[0]));
        let mut rest = copy_range(&w, 1, self.len());
        o.append(&mut rest);
        assert(o@ =~= self@.update(0, upper(self@[0])));
        Ok(o)
    }

    fn equals_ignore_case(&self, other: &Self) -> (r: Result<bool, UtilsError>) {
        if self.len() != other.len() {
            return Ok(false);
        }
        let a = self.load_512_bytes()?;
        let b = other.load_512_bytes()?;
        let mut i: usize = 0;
        while i < self.len()
            invariant
                i <= self@.len() == other@.len() <= WINDOW,
                a@ == window(self@),
                b@ == window(other@),
                forall|k: int| 0 <= k < i ==> lower(self@[k]) == lower(other@[k]),
            decreases self@.len() - i,
        {
            if lower_byte(a[i]) != lower_byte(b[i]) {
                return Ok(false);
            }
            i += 1;
        }
        Ok(true)
    }

    fn append_trailing_character_if_missing(&self, c: u8) -> (r: Result<Vec<u8>, UtilsError>) {
        let w = self.load_512_bytes()?;
        let len = self.len();
        if len == 0 {
            return Err(UtilsError::BufferEmpty);
        }
        let mut o = copy_range(&w, 0, len);
        assert(o@ =~= self@);
        if w[len - 1] != c {
            o.push(c);
        }
        Ok(o)
    }

    fn replace(&self, pat: &[u8], by: &Self) -> (r: Result<Vec<u8>, UtilsError>) {
        let w = self.load_512_bytes()?;
        let len = self.len();
        let ghost s = self@;
        let mut o: Vec<u8> = Vec::new();
        let mut i: usize = 0;
        assert(s.subrange(0, len as int) =~= s);
        while i < len
            invariant
                i <= len == s.len() <= WINDOW,
                s == self@,
                w@ == window(s),
                pat@.len() > 0,
                o@ + replace_spec(s.subrange(i as int, len as int), pat@, by@)
                    == replace_spec(s, pat@, by@),
            decreases len - i,
        {
            let ghost rest = s.subrange(i as int, len as int);
            assert(w@.subrange(i as int, len as int) =~= rest);
            if matches_at(&w, len, i, pat) {
                let ghost m = pat@.len() as int;
                assert(rest.subrange(m, rest.len() as int) =~= s.subrange(i + m, len as int));
                let mut piece = by.clone();
                assert(piece@ =~= by@) by {
                    assert(forall|k: int| 0 <= k < by@.len() ==> piece@[k] == by@[k]);
                }
                let ghost before = o@;
                o.append(&mut piece);
                assert(o@ + replace_spec(s.subrange(i + m, len as int), pat@, by@) =~= before
                    + replace_spec(rest, pat@, by@));
                i += pat.len();
            } else {
                assert(rest.subrange(1, rest.len() as int) =~= s.subrange(i + 1, len as int));
                let ghost before = o@;
                o.push(w[i]);
                assert(o@ + replace_spec(s.subrange(i + 1, len as int), pat@, by@) =~= before
                    + replace_spec(rest, pat@, by@));
                i += 1;
            }
        }
        assert(s.subrange(len as int, len as int) =~= Seq::<u8>::empty());
        assert(o@ =~= o@ + replace_spec(s.subrange(len as int, len as int), pat@, by@));
        Ok(o)
    }

    fn contains(&self, pat: &[u8]) -> (r: Result<bool, UtilsError>) {
        let w = self.load_512_bytes()?;
        let len = self.len();
        let mut i: usize = 0;
        while i < len
            invariant
                i <= len == self@.len() <= WINDOW,
                w@ == window(self@),
                forall|k: int|
                    0 <= k < i && k <= len - pat@.len() ==> #[trigger] self@.subrange(
                        k,
                        k + pat@.len(),
                    ) != pat@,
            decreases len - i,
        {
            assert(w@.subrange(i as int, len as int) =~= self@.subrange(i as int, len as int));
            if matches_at(&w, len, i, pat) {
                assert(self@.subrange(i as int, len as int).subrange(0, pat@.len() as int)
                    =~= self@.subrange(i as int, i + pat@.len()));
                return Ok(true);
            }
            assert(i <= len - pat@.len() ==> self@.subrange(i as int, len as int).subrange(0, pat@.len() as int)
                =~= self@.subrange(i as int, i + pat@.len()));
            i += 1;
        }
        Ok(false)
    }

    fn to_lowercase(&self) -> (r: Result<Vec<u8>, UtilsError>) {
        let w = self.load_512_bytes()?;
        let len = self.len();
        let mut o: Vec<u8> = Vec::new();
        let mut i: usize = 0;
        while i < len
            invariant
                i <= len == self@.len() <= WINDOW,
                w@ == window(self@),
                o@ == self@.subrange(0, i as int).map_values(|c: u8| lower(c)),
            decreases len - i,
        {
            o.push(lower_byte(w[i]));
            i += 1;
            assert(o@ =~= self@.subrange(0, i as int).map_values(|c: u8| lower(c)));
        }
        assert(self@.subrange(0, len as int) =~= self@);
        Ok(o)
    }
    fn hex_to_u64(&self) -> (r: Result<Option<u64>, UtilsError>) {
        let w = self.load_512_bytes()?;
        Ok(decode_window(&w, 16))
    }

    fn ascii_to_u64(&self) -> (r: Result<Option<u64>, UtilsError>) {
        let w = self.load_512_bytes()?;
        Ok(decode_window(&w, 10))
    }

    fn compare(&self, other: &Self) -> (r: Result<core::cmp::Ordering, UtilsError>) {
        let a = self.load_512_bytes()?;
        let b = other.load_512_bytes()?;
        let mut i: usize = 0;
        assert(a@.subrange(0, WINDOW as int) =~= a@);
        assert(b@.subrange(0, WINDOW as int) =~= b@);
        while i < WINDOW
            invariant
                i <= WINDOW,
                a@ == window(self@),
                b@ == window(other@),
                a@.len() == WINDOW,
                b@.len() == WINDOW,
                lex_cmp(a@, b@) == lex_cmp(
                    a@.subrange(i as int, WINDOW as int),
                    b@.subrange(i as int, WINDOW as int),
                ),
            decreases WINDOW - i,
        {
            let ghost sa = a@.subrange(i as int, WINDOW as int);
            let ghost sb = b@.subrange(i as int, WINDOW as int);
            assert(sa[0] == a@[i as int] && sb[0] == b@[i as int]);
            if a[i] < b[i] {
                return Ok(core::cmp::Ordering::Less);
            }
            if a[i] > b[i] {
                return Ok(core::cmp::Ordering::Greater);
            }
            assert(sa.subrange(1, sa.len() as int) =~= a@.subrange(i + 1, WINDOW as int));
            assert(sb.subrange(1, sb.len() as int) =~= b@.subrange(i + 1, WINDOW as int));
            i += 1;
        }
        Ok(core::cmp::Ordering::Equal)
    }
}

} // verus!
