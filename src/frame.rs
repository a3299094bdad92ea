//! The frame decoder: turns the bytes of one request (an array of bulk
//! strings) into values, or says that more bytes are needed, or that the
//! bytes cannot be a request.
use vstd::prelude::*;
use crate::wire::{CR, LF, crlf, is_digit, decimal, digits_value, bulk_bytes, lemma_decimal_shape};

verus! {

/// One decoded protocol value.
#[derive(Debug, PartialEq, Eq)]
pub enum Value {
    Bulk(Vec<u8>),
    Simple(Vec<u8>),
    Integer(i64),
}

/// What a [`Value`] stands for.
pub enum ValueView {
    Bulk(Seq<u8>),
    Simple(Seq<u8>),
    Integer(int),
}

impl View for Value {
    type V = ValueView;

    open spec fn view(&self) -> ValueView {
        match self {
            Value::Bulk(b) => ValueView::Bulk(b@),
            Value::Simple(t) => ValueView::Simple(t@),
            Value::Integer(n) => ValueView::Integer(*n as int),
        }
    }
}

pub open spec fn views(vs: Seq<Value>) -> Seq<ValueView> {
    vs.map_values(|v: Value| v@)
}

pub open spec fn bulks(items: Seq<Seq<u8>>) -> Seq<ValueView> {
    items.map_values(|b: Seq<u8>| ValueView::Bulk(b))
}

/// Why no frame came out of a buffer.
#[derive(Debug, Clone, Copy, PartialEq, Eq, Structural)]
pub enum FrameError {
    /// The buffer holds the start of a frame; more bytes are needed.
    Incomplete,
    /// The bytes cannot be the start of any frame.
    Malformed,
}

/// Length of the run of digits that starts at `i`.
pub open spec fn digit_run(s: Seq<u8>, i: int) -> nat
    decreases s.len() - i,
{
    if 0 <= i < s.len() && is_digit(s[i]) {
        1 + digit_run(s, i + 1)
    } else {
        0
    }
}

/// A length or count field starting at `i`: canonical digits that fit in
/// `usize`, then CR LF. The result is the number and the position after LF.
pub open spec fn spec_number(s: Seq<u8>, i: int) -> Result<(nat, int), FrameError> {
    let k = digit_run(s, i) as int;
    let v = digits_value(s.subrange(i, i + k));
    if k == 0 {
        if i >= s.len() { Err(FrameError::Incomplete) } else { Err(FrameError::Malformed) }
    } else if k > 1 && s[i] == 48u8 {
        Err(FrameError::Malformed)
    } else if v > usize::MAX {
        Err(FrameError::Malformed)
    } else if i + k >= s.len() {
        Err(FrameError::Incomplete)
    } else if s[i + k] != CR {
        Err(FrameError::Malformed)
    } else if i + k + 1 >= s.len() {
        Err(FrameError::Incomplete)
    } else if s[i + k + 1] != LF {
        Err(FrameError::Malformed)
    } else {
        Ok((v, i + k + 2))
    }
}

/// A bulk string starting at `p`: `$`, its length field, that many bytes, CR LF.
pub open spec fn spec_bulk(s: Seq<u8>, p: int) -> Result<(Seq<u8>, int), FrameError> {
    if p >= s.len() {
        Err(FrameError::Incomplete)
    } else if s[p] != 36u8 {
        Err(FrameError::Malformed)
    } else {
        match spec_number(s, p + 1) {
            Err(e) => Err(e),
            Ok((len, q)) => {
                if q + len >= s.len() {
                    Err(FrameError::Incomplete)
                } else if s[q + len] != CR {
                    Err(FrameError::Malformed)
                } else if q + len + 1 >= s.len() {
                    Err(FrameError::Incomplete)
                } else if s[q + len + 1] != LF {
                    Err(FrameError::Malformed)
                } else {
                    Ok((s.subrange(q, q + len), q + len + 2))
                }
            },
        }
    }
}

/// `n` bulk strings one after another from `p`.
pub open spec fn spec_elements(s: Seq<u8>, p: int, n: nat) -> Result<(Seq<Seq<u8>>, int), FrameError>
    decreases n,
{
    if n == 0 {
        Ok((Seq::empty(), p))
    } else {
        match spec_bulk(s, p) {
            Err(e) => Err(e),
            Ok((b, q)) => match spec_elements(s, q, (n - 1) as nat) {
                Err(e) => Err(e),
                Ok((rest, r)) => Ok((seq![b] + rest, r)),
            },
        }
    }
}

/// The first frame of `s`: `*`, a count field, then that many bulk strings.
/// On success, the items and the number of bytes the frame takes.
pub open spec fn spec_decode(s: Seq<u8>) -> Result<(Seq<Seq<u8>>, int), FrameError> {
    if s.len() == 0 {
        Err(FrameError::Incomplete)
    } else if s[0] != 42u8 {
        Err(FrameError::Malformed)
    } else {
        match spec_number(s, 1) {
            Err(e) => Err(e),
            Ok((n, p)) => spec_elements(s, p, n),
        }
    }
}

/// The wire form of a request made of `items`.
pub open spec fn frame_bytes(items: Seq<Seq<u8>>) -> Seq<u8> {
    seq![42u8] + decimal(items.len()) + crlf() + items_bytes(items)
}

pub open spec fn items_bytes(items: Seq<Seq<u8>>) -> Seq<u8>
    decreases items.len(),
{
    if items.len() == 0 {
        Seq::empty()
    } else {
        bulk_bytes(items[0]) + items_bytes(items.drop_first())
    }
}

proof fn lemma_value_step(s: Seq<u8>, i: int, j: int)
    requires
        0 <= i <= j < s.len(),
    ensures
        digits_value(s.subrange(i, j + 1)) == digits_value(s.subrange(i, j)) * 10 + (s[j] - 48) as nat,
{
    assert(s.subrange(i, j + 1).drop_last() =~= s.subrange(i, j));
}

proof fn lemma_value_grows(s: Seq<u8>, i: int, j: int, k: int)
    requires
        0 <= i <= j <= k <= s.len(),
        forall|m: int| i <= m < k ==> is_digit(#[trigger] s[m]),
    ensures
        digits_value(s.subrange(i, j)) <= digits_value(s.subrange(i, k)),
    decreases k - j,
{
    if j < k {
        lemma_value_grows(s, i, j, k - 1);
        lemma_value_step(s, i, k - 1);
    }
}

proof fn lemma_digit_run_bounds(s: Seq<u8>, i: int)
    requires
        0 <= i <= s.len(),
    ensures
        i + digit_run(s, i) <= s.len(),
        forall|m: int| i <= m < i + digit_run(s, i) ==> is_digit(#[trigger] s[m]),
        i + digit_run(s, i) < s.len() ==> !is_digit(s[i + digit_run(s, i)]),
    decreases s.len() - i,
{
    if i < s.len() && is_digit(s[i]) {
        lemma_digit_run_bounds(s, i + 1);
    }
}

proof fn lemma_digit_run_split(s: Seq<u8>, i: int, j: int)
    requires
        0 <= i <= j <= s.len(),
        forall|m: int| i <= m < j ==> is_digit(#[trigger] s[m]),
    ensures
        digit_run(s, i) == (j - i) + digit_run(s, j),
    decreases j - i,
{
    if i < j {
        lemma_digit_run_split(s, i + 1, j);
    }
}

fn digit_byte(b: u8) -> (r: bool)
    ensures
        r == is_digit(b),
{
    48 <= b && b <= 57
}

fn parse_number(buf: &[u8], i: usize) -> (r: Result<(usize, usize), FrameError>)
    requires
        i <= buf@.len(),
    ensures
        match r {
            Ok((v, p)) => spec_number(buf@, i as int) == Ok::<(nat, int), FrameError>((v as nat, p as int)),
            Err(e) => spec_number(buf@, i as int) == Err::<(nat, int), FrameError>(e),
        },
{
    let ghost s = buf@;
    let len = buf.len();
    if len - i >= 2 && buf[i] == 48 && digit_byte(buf[i + 1]) {
        proof {
            lemma_digit_run_split(s, i as int, i + 2);
        }
        return Err(FrameError::Malformed);
    }
    let mut j: usize = i;
    let mut acc: usize = 0;
    while j < len && digit_byte(buf[j])
        invariant
            i <= j <= len,
            len == s.len(),
            s == buf@,
            forall|m: int| i <= m < j ==> is_digit(#[trigger] s[m]),
            acc as nat == digits_value(s.subrange(i as int, j as int)),
        decreases len - j,
    {
        let d: usize = (buf[j] - 48) as usize;
        proof {
            lemma_value_step(s, i as int, j as int);
        }
        if acc > (usize::MAX - d) / 10 {
            proof {
                assert(acc * 10 + d > usize::MAX) by (nonlinear_arith)
                    requires acc > (usize::MAX - d) / 10, d <= 9;
                lemma_digit_run_split(s, i as int, j + 1);
                lemma_digit_run_bounds(s, i as int);
                let k = i + digit_run(s, i as int);
                lemma_digit_run_split(s, i as int, k);
                lemma_value_grows(s, i as int, j + 1, k);
            }
            return Err(FrameError::Malformed);
        }
        acc = acc * 10 + d;
        j = j + 1;
    }
    proof {
        lemma_digit_run_split(s, i as int, j as int);
        assert(digit_run(s, j as int) == 0);
    }
    if j == i {
        if i >= len {
            return Err(FrameError::Incomplete);
        }
        return Err(FrameError::Malformed);
    }
    if j >= len {
        return Err(FrameError::Incomplete);
    }
    if buf[j] != CR {
        return Err(FrameError::Malformed);
    }
    if j + 1 >= len {
        return Err(FrameError::Incomplete);
    }
    if buf[j + 1] != LF {
        return Err(FrameError::Malformed);
    }
    Ok((acc, j + 2))
}

/// Every count and length in a request made of `items` fits in `usize`.
pub open spec fn fits(items: Seq<Seq<u8>>) -> bool {
    items.len() <= usize::MAX && forall|i: int| 0 <= i < items.len() ==> #[trigger] items[i].len() <= usize::MAX
}

/// `s` holds `e` from position `p` on, as far as `s` goes.
pub open spec fn holds_from(s: Seq<u8>, p: int, e: Seq<u8>) -> bool {
    0 <= p <= s.len() && forall|j: int| p <= j < s.len() && j < p + e.len() ==> #[trigger] s[j] == e[j - p]
}

proof fn lemma_number_exact(s: Seq<u8>, i: int, n: nat)
    requires
        n <= usize::MAX,
        holds_from(s, i, decimal(n) + crlf()),
        i + decimal(n).len() + 2 <= s.len(),
    ensures
        spec_number(s, i) == Ok::<(nat, int), FrameError>((n, i + decimal(n).len() + 2)),
{
    let d = decimal(n);
    let e = d + crlf();
    lemma_decimal_shape(n);
    let k = d.len() as int;
    assert forall|m: int| i <= m < i + k implies is_digit(#[trigger] s[m]) by {
        assert(s[m] == e[m - i]);
        assert(e[m - i] == d[m - i]);
    }
    assert(s[i + k] == e[k]);
    assert(s[i + k + 1] == e[k + 1]);
    lemma_digit_run_split(s, i, i + k);
    assert(digit_run(s, i + k) == 0);
    assert forall|j: int| 0 <= j < k implies #[trigger] s.subrange(i, i + k)[j] == d[j] by {
        assert(s[i + j] == e[j]);
    }
    assert(s.subrange(i, i + k) =~= d);
    if k > 1 {
        assert(s[i] == e[0]);
    }
}

proof fn lemma_number_partial(s: Seq<u8>, i: int, n: nat)
    requires
        n <= usize::MAX,
        holds_from(s, i, decimal(n) + crlf()),
        s.len() < i + decimal(n).len() + 2,
    ensures
        spec_number(s, i) == Err::<(nat, int), FrameError>(FrameError::Incomplete),
{
    let d = decimal(n);
    let e = d + crlf();
    lemma_decimal_shape(n);
    let m = s.len() - i;
    if m <= d.len() {
        assert forall|x: int| i <= x < s.len() implies is_digit(#[trigger] s[x]) by {
            assert(s[x] == e[x - i]);
            assert(e[x - i] == d[x - i]);
        }
        lemma_digit_run_split(s, i, s.len() as int);
        assert(digit_run(s, s.len() as int) == 0);
        if m > 0 {
            assert(s[i] == e[0]);
            assert forall|j: int| 0 <= j < m implies #[trigger] s.subrange(i, i + m)[j] == d.subrange(0, m)[j] by {
                assert(s[i + j] == e[j]);
            }
            assert(s.subrange(i, i + m) =~= d.subrange(0, m));
            assert(d.subrange(0, d.len() as int) =~= d);
            lemma_value_grows(d, 0, m, d.len() as int);
        }
    } else {
        let k = d.len() as int;
        assert forall|x: int| i <= x < i + k implies is_digit(#[trigger] s[x]) by {
            assert(s[x] == e[x - i]);
            assert(e[x - i] == d[x - i]);
        }
        assert(s[i + k] == e[k]);
        lemma_digit_run_split(s, i, i + k);
        assert(digit_run(s, i + k) == 0);
        assert forall|j: int| 0 <= j < k implies #[trigger] s.subrange(i, i + k)[j] == d[j] by {
            assert(s[i + j] == e[j]);
        }
        assert(s.subrange(i, i + k) =~= d);
        if k > 1 {
            assert(s[i] == e[0]);
        }
    }
}

proof fn lemma_bulk_exact(s: Seq<u8>, p: int, b: Seq<u8>)
    requires
        b.len() <= usize::MAX,
        holds_from(s, p, bulk_bytes(b)),
        p + bulk_bytes(b).len() <= s.len(),
    ensures
        spec_bulk(s, p) == Ok::<(Seq<u8>, int), FrameError>((b, p + bulk_bytes(b).len())),
{
    let e = bulk_bytes(b);
    let d = decimal(b.len());
    let k = d.len() as int;
    assert(s[p] == e[0]);
    assert forall|j: int| p + 1 <= j < s.len() && j < p + 1 + (d + crlf()).len() implies #[trigger] s[j] == (d + crlf())[j - (p + 1)] by {
        assert(s[j] == e[j - p]);
    }
    lemma_number_exact(s, p + 1, b.len());
    let q = p + 1 + k + 2;
    let l = b.len() as int;
    assert(s[q + l] == e[q + l - p]);
    assert(s[q + l + 1] == e[q + l + 1 - p]);
    assert forall|j: int| 0 <= j < l implies #[trigger] s.subrange(q, q + l)[j] == b[j] by {
        assert(s[q + j] == e[q + j - p]);
    }
    assert(s.subrange(q, q + l) =~= b);
}

proof fn lemma_bulk_partial(s: Seq<u8>, p: int, b: Seq<u8>)
    requires
        b.len() <= usize::MAX,
        holds_from(s, p, bulk_bytes(b)),
        s.len() < p + bulk_bytes(b).len(),
    ensures
        spec_bulk(s, p) == Err::<(Seq<u8>, int), FrameError>(FrameError::Incomplete),
{
    let e = bulk_bytes(b);
    let d = decimal(b.len());
    let k = d.len() as int;
    if p < s.len() {
        assert(s[p] == e[0]);
        assert forall|j: int| p + 1 <= j < s.len() && j < p + 1 + (d + crlf()).len() implies #[trigger] s[j] == (d + crlf())[j - (p + 1)] by {
            assert(s[j] == e[j - p]);
        }
        if s.len() < p + 1 + k + 2 {
            lemma_number_partial(s, p + 1, b.len());
        } else {
            lemma_number_exact(s, p + 1, b.len());
            let q = p + 1 + k + 2;
            let l = b.len() as int;
            if q + l < s.len() {
                assert(s[q + l] == e[q + l - p]);
            }
        }
    }
}

proof fn lemma_elements_exact(s: Seq<u8>, p: int, items: Seq<Seq<u8>>)
    requires
        fits(items),
        holds_from(s, p, items_bytes(items)),
        p + items_bytes(items).len() <= s.len(),
    ensures
        spec_elements(s, p, items.len()) == Ok::<(Seq<Seq<u8>>, int), FrameError>(
            (items, p + items_bytes(items).len()),
        ),
    decreases items.len(),
{
    if items.len() > 0 {
        let b = items[0];
        let rest = items.drop_first();
        let e = items_bytes(items);
        let eb = bulk_bytes(b);
        assert(e == eb + items_bytes(rest));
        assert forall|j: int| p <= j < s.len() && j < p + eb.len() implies #[trigger] s[j] == eb[j - p] by {
            assert(s[j] == e[j - p]);
        }
        lemma_bulk_exact(s, p, b);
        let q = p + eb.len();
        assert forall|j: int| q <= j < s.len() && j < q + items_bytes(rest).len() implies #[trigger] s[j] == items_bytes(rest)[j - q] by {
            assert(s[j] == e[j - p]);
        }
        assert forall|i: int| 0 <= i < rest.len() implies #[trigger] rest[i].len() <= usize::MAX by {
            assert(rest[i] == items[i + 1]);
        }
        lemma_elements_exact(s, q, rest);
        assert(seq![b] + rest =~= items);
    } else {
        assert(items =~= Seq::<Seq<u8>>::empty());
    }
}

proof fn lemma_elements_partial(s: Seq<u8>, p: int, items: Seq<Seq<u8>>)
    requires
        fits(items),
        holds_from(s, p, items_bytes(items)),
        s.len() < p + items_bytes(items).len(),
    ensures
        spec_elements(s, p, items.len()) == Err::<(Seq<Seq<u8>>, int), FrameError>(FrameError::Incomplete),
    decreases items.len(),
{
    if items.len() > 0 {
        let b = items[0];
        let rest = items.drop_first();
        let e = items_bytes(items);
        let eb = bulk_bytes(b);
        assert(e == eb + items_bytes(rest));
        assert forall|j: int| p <= j < s.len() && j < p + eb.len() implies #[trigger] s[j] == eb[j - p] by {
            assert(s[j] == e[j - p]);
        }
        if s.len() < p + eb.len() {
            lemma_bulk_partial(s, p, b);
        } else {
            lemma_bulk_exact(s, p, b);
            let q = p + eb.len();
            assert forall|j: int| q <= j < s.len() && j < q + items_bytes(rest).len() implies #[trigger] s[j] == items_bytes(rest)[j - q] by {
                assert(s[j] == e[j - p]);
            }
            assert forall|i: int| 0 <= i < rest.len() implies #[trigger] rest[i].len() <= usize::MAX by {
                assert(rest[i] == items[i + 1]);
            }
            lemma_elements_partial(s, q, rest);
        }
    }
}

/// A buffer that starts with the encoding of a request decodes to exactly
/// that request's items, and the frame ends where the encoding does;
/// whatever follows is left alone.
pub proof fn lemma_decode_encoded(items: Seq<Seq<u8>>, rest: Seq<u8>)
    requires
        fits(items),
    ensures
        spec_decode(frame_bytes(items) + rest) == Ok::<(Seq<Seq<u8>>, int), FrameError>(
            (items, frame_bytes(items).len() as int),
        ),
{
    let f = frame_bytes(items);
    let s = f + rest;
    let d = decimal(items.len());
    assert(s[0] == f[0]);
    assert forall|j: int| 1 <= j < s.len() && j < 1 + (d + crlf()).len() implies #[trigger] s[j] == (d + crlf())[j - 1] by {
        assert(s[j] == f[j]);
    }
    lemma_number_exact(s, 1, items.len());
    let p: int = 1 + d.len() as int + 2;
    assert forall|j: int| p <= j < s.len() && j < p + items_bytes(items).len() implies #[trigger] s[j] == items_bytes(items)[j - p] by {
        assert(s[j] == f[j]);
    }
    lemma_elements_exact(s, p, items);
}

/// Every strict prefix of an encoded request is reported as incomplete,
/// never as malformed: a request may arrive in pieces.
pub proof fn lemma_prefix_incomplete(items: Seq<Seq<u8>>, m: int)
    requires
        fits(items),
        0 <= m < frame_bytes(items).len(),
    ensures
        spec_decode(frame_bytes(items).subrange(0, m)) == Err::<(Seq<Seq<u8>>, int), FrameError>(
            FrameError::Incomplete,
        ),
{
    let f = frame_bytes(items);
    let s = f.subrange(0, m);
    let d = decimal(items.len());
    if m > 0 {
        assert(s[0] == f[0]);
        assert forall|j: int| 1 <= j < s.len() && j < 1 + (d + crlf()).len() implies #[trigger] s[j] == (d + crlf())[j - 1] by {
            assert(s[j] == f[j]);
        }
        let p: int = 1 + d.len() as int + 2;
        if m < p {
            lemma_number_partial(s, 1, items.len());
        } else {
            lemma_number_exact(s, 1, items.len());
            assert forall|j: int| p <= j < s.len() && j < p + items_bytes(items).len() implies #[trigger] s[j] == items_bytes(items)[j - p] by {
                assert(s[j] == f[j]);
            }
            lemma_elements_partial(s, p, items);
        }
    }
}

/// Copies `len` bytes of `buf` from `start`.
pub fn copy_range(buf: &[u8], start: usize, len: usize) -> (r: Vec<u8>)
    requires
        start + len <= buf@.len(),
    ensures
        r@ == buf@.subrange(start as int, start + len),
{
    let mut out: Vec<u8> = Vec::new();
    let mut j: usize = 0;
    let total = buf.len();
    while j < len
        invariant
            j <= len,
            total == buf@.len(),
            start + len <= buf@.len(),
            out@ == buf@.subrange(start as int, start + j),
        decreases len - j,
    {
        out.push(buf[start + j]);
        j = j + 1;
        assert(out@ =~= buf@.subrange(start as int, start + j));
    }
    out
}

fn parse_bulk(buf: &[u8], p: usize) -> (r: Result<(Vec<u8>, usize), FrameError>)
    requires
        p <= buf@.len(),
    ensures
        match r {
            Ok((b, q)) => spec_bulk(buf@, p as int) == Ok::<(Seq<u8>, int), FrameError>((b@, q as int)),
            Err(e) => spec_bulk(buf@, p as int) == Err::<(Seq<u8>, int), FrameError>(e),
        },
{
    let len = buf.len();
    if p >= len {
        return Err(FrameError::Incomplete);
    }
    if buf[p] != 36 {
        return Err(FrameError::Malformed);
    }
    match parse_number(buf, p + 1) {
        Err(e) => Err(e),
        Ok((n, q)) => {
            if n >= len - q {
                Err(FrameError::Incomplete)
            } else if buf[q + n] != CR {
                Err(FrameError::Malformed)
            } else if q + n + 1 >= len {
                Err(FrameError::Incomplete)
            } else if buf[q + n + 1] != LF {
                Err(FrameError::Malformed)
            } else {
                let b = copy_range(buf, q, n);
                Ok((b, q + n + 2))
            }
        },
    }
}

/// Puts `acc` in front of the items of a successful result.
pub open spec fn prepend_items(
    acc: Seq<Seq<u8>>,
    r: Result<(Seq<Seq<u8>>, int), FrameError>,
) -> Result<(Seq<Seq<u8>>, int), FrameError> {
    match r {
        Ok((rest, q)) => Ok((acc + rest, q)),
        Err(e) => Err(e),
    }
}

/// Decodes the first frame of `buf`. On success, returns its items, each a
/// bulk string, and the number of bytes the frame takes; the bytes after it
/// are left for the next call.
pub fn decode_frame(buf: &[u8]) -> (r: Result<(Vec<Value>, usize), FrameError>)
    ensures
        match r {
            Ok((vs, n)) => match spec_decode(buf@) {
                Ok((items, m)) => views(vs@) == bulks(items) && m == n as int && n <= buf@.len(),
                Err(_) => false,
            },
            Err(e) => spec_decode(buf@) == Err::<(Seq<Seq<u8>>, int), FrameError>(e),
        },
{
    let ghost s = buf@;
    if buf.len() == 0 {
        return Err(FrameError::Incomplete);
    }
    if buf[0] != 42 {
        return Err(FrameError::Malformed);
    }
    let (count, start) = match parse_number(buf, 1) {
        Err(e) => {
            return Err(e);
        },
        Ok(x) => x,
    };
    let mut vs: Vec<Value> = Vec::new();
    let ghost mut acc: Seq<Seq<u8>> = Seq::empty();
    let mut p: usize = start;
    let mut i: usize = 0;
    assert(acc + Seq::<Seq<u8>>::empty() =~= Seq::<Seq<u8>>::empty());
    proof {
        match spec_elements(s, start as int, count as nat) {
            Ok((rest, q)) => { assert(acc + rest =~= rest); },
            Err(_) => {},
        }
    }
    while i < count
        invariant
            s == buf@,
            i <= count,
            p <= s.len(),
            spec_decode(s) == prepend_items(acc, spec_elements(s, p as int, (count - i) as nat)),
            views(vs@) == bulks(acc),
        decreases count - i,
    {
        match parse_bulk(buf, p) {
            Err(e) => {
                return Err(e);
            },
            Ok((b, q)) => {
                proof {
                    let x = spec_elements(s, q as int, (count - i - 1) as nat);
                    match x {
                        Ok((rest, r)) => {
                            assert(acc + (seq![b@] + rest) =~= acc.push(b@) + rest);
                        },
                        Err(_) => {},
                    }
                }
                let ghost before = vs@;
                let ghost prev = acc;
                proof {
                    acc = acc.push(b@);
                    assert(views(before).len() == prev.len());
                }
                let ghost bv = b@;
                vs.push(Value::Bulk(b));
                assert(vs@ == before.push(Value::Bulk(b)));
                assert(vs@[vs@.len() - 1]@ == ValueView::Bulk(bv));
                assert forall|k: int| 0 <= k < vs@.len() implies #[trigger] views(vs@)[k] == bulks(acc)[k] by {
                    if k < before.len() {
                        assert(vs@[k] == before[k]);
                        assert(views(before)[k] == bulks(prev)[k]);
                    }
                }
                assert(views(vs@) =~= bulks(acc));
                p = q;
                i = i + 1;
            },
        }
    }
    assert(acc + Seq::<Seq<u8>>::empty() =~= acc);
    Ok((vs, p))
}

} // verus!
