//! The sliding-window codec. A token `(distance, length, literal)` stands for
//! `length` bytes copied from `distance` bytes back, followed by one literal
//! byte.
//!
//! The configuration is fixed: the window holds `WINDOW_SIZE` = 4096 bytes, so a
//! distance fits in 12 bits, and the lookahead holds `VIEW_SIZE` = 16 bytes, so
//! a length is at most 15 and fits in 4 bits.
//!
//! A copy may run into the bytes that it produces itself: it is made byte by
//! byte, so a distance smaller than the length repeats a pattern. A copy never
//! starts before the first byte of the stream: the encoder emits no such token,
//! and the decoder rejects one.

use crate::error::DecodeError;
use vstd::arithmetic::div_mod::lemma_fundamental_div_mod;
use vstd::arithmetic::div_mod::lemma_fundamental_div_mod_converse;
use vstd::prelude::*;

verus! {

/// Number of bytes the window holds: history and lookahead together.
pub const WINDOW_SIZE: usize = 4096;

/// Largest number of bytes the lookahead holds.
pub const VIEW_SIZE: usize = 16;

/// Largest number of slots of a ring: small enough that offsets into it can be
/// added as signed numbers on every machine.
pub const CYCLE_LIMIT: usize = 0x4000_0000;

/// A ring of bytes of fixed size. Pushing a byte drops the oldest one.
pub struct Cycle {
    data: Vec<u8>,
    begin: usize,
}

/// For a negative `s`, the Euclidean remainder from the remainder of `-s`.
proof fn lemma_mod_of_negative(s: int, n: int)
    requires
        s < 0,
        n > 0,
    ensures
        (-s) % n == 0 ==> s % n == 0,
        (-s) % n != 0 ==> s % n == n - (-s) % n,
{
    let q = (-s) / n;
    let m = (-s) % n;
    lemma_fundamental_div_mod(-s, n);
    assert(-s == n * q + m);
    if m == 0 {
        assert(s == (-q) * n + 0) by (nonlinear_arith)
            requires
                -s == n * q + m,
                m == 0,
        ;
        lemma_fundamental_div_mod_converse(s, n, -q, 0);
    } else {
        assert(s == (-q - 1) * n + (n - m)) by (nonlinear_arith)
            requires
                -s == n * q + m,
        ;
        lemma_fundamental_div_mod_converse(s, n, -q - 1, n - m);
    }
}

impl Cycle {
    /// The ring has at least one slot, few enough that signed offsets cannot
    /// overflow, and its start lies inside it.
    pub closed spec fn wf(&self) -> bool {
        &&& 0 < self.data.len() <= CYCLE_LIMIT
        &&& self.begin < self.data.len()
    }

    /// Number of slots.
    pub closed spec fn size(&self) -> nat {
        self.data.len() as nat
    }

    /// The view has one entry per slot.
    pub proof fn lemma_view_len(&self)
        ensures
            self@.len() == self.size(),
    {
    }

    /// A ring of `size` zero bytes.
    pub fn new(size: usize) -> (ring: Cycle)
        requires
            0 < size <= CYCLE_LIMIT,
        ensures
            ring.wf(),
            ring.size() == size,
            ring@ == Seq::new(size as nat, |k: int| 0u8),
    {
        let mut data: Vec<u8> = Vec::new();
        let mut i: usize = 0;
        while i < size
            invariant
                i <= size,
                data@.len() == i,
                forall|k: int| 0 <= k < i ==> data@[k] == 0u8,
            decreases size - i,
        {
            data.push(0u8);
            i = i + 1;
        }
        let ring = Cycle { data, begin: 0 };
        assert(ring@ =~= Seq::new(size as nat, |k: int| 0u8));
        ring
    }

    /// Drops the oldest byte and adds `x` as the newest.
    pub fn push(&mut self, x: u8)
        requires
            old(self).wf(),
        ensures
            final(self).wf(),
            final(self).size() == old(self).size(),
            final(self)@ == old(self)@.skip(1).push(x),
    {
        let n = self.data.len();
        let ghost before = self.data@;
        let ghost b = self.begin as int;
        self.data.set(self.begin, x);
        self.begin = (self.begin + 1) % n;
        proof {
            let after = self@;
            let want = old(self)@.skip(1).push(x);
            assert(after.len() == want.len());
            assert forall|k: int| 0 <= k < n implies after[k] == want[k] by {
                let nb = self.begin as int;
                // position of entry k in the new ring, and of entry k + 1 in the old one
                if b + 1 < n {
                    lemma_fundamental_div_mod_converse(b + 1, n as int, 0, b + 1);
                } else {
                    lemma_fundamental_div_mod_converse(b + 1, n as int, 1, 0);
                }
                let s = b + 1 + k;
                if s < n {
                    lemma_fundamental_div_mod_converse(s, n as int, 0, s);
                } else if s < 2 * n {
                    lemma_fundamental_div_mod_converse(s, n as int, 1, s - n);
                } else {
                    lemma_fundamental_div_mod_converse(s, n as int, 2, s - 2 * n);
                }
                let t = nb + k;
                if t < n {
                    lemma_fundamental_div_mod_converse(t, n as int, 0, t);
                } else {
                    lemma_fundamental_div_mod_converse(t, n as int, 1, t - n);
                }
                assert(t % (n as int) == s % (n as int));
                if k < n - 1 {
                    assert(s % (n as int) != b);
                } else {
                    assert(s % (n as int) == b);
                }
            }
            assert(after =~= want);
        }
    }

    /// The slot of the entry at offset `i` from the oldest byte; a negative
    /// offset counts back from the newest byte, `-1` being the newest.
    pub fn modulo(&self, i: isize) -> (slot: usize)
        requires
            self.wf(),
            isize::MIN <= self.begin_offset() + i <= isize::MAX,
        ensures
            slot < self.size(),
            slot == (self.begin_offset() + i) % (self.size() as int),
    {
        let n = self.data.len();
        let s: isize = self.begin as isize + i;
        let mut j: isize = s % (n as isize);
        proof {
            if s < 0 {
                lemma_mod_of_negative(s as int, n as int);
            }
        }
        if j < 0 {
            j = j + n as isize;
        }
        j as usize
    }

    /// Where the oldest byte lies.
    pub closed spec fn begin_offset(&self) -> int {
        self.begin as int
    }

    /// The start always lies inside the ring.
    pub proof fn lemma_begin_offset(&self)
        requires
            self.wf(),
        ensures
            0 <= self.begin_offset() < self.size(),
            self.size() <= CYCLE_LIMIT,
    {
    }

    /// The byte at offset `i` from the oldest byte; a negative offset counts
    /// back from the newest byte.
    pub fn index(&self, i: isize) -> (byte: u8)
        requires
            self.wf(),
            isize::MIN <= self.begin_offset() + i <= isize::MAX,
        ensures
            byte == self@[(i as int) % (self.size() as int)],
    {
        let slot = self.modulo(i);
        proof {
            let n = self.data.len() as int;
            let b = self.begin as int;
            let k = (i as int) % n;
            // (b + i) % n == (b + k) % n
            lemma_fundamental_div_mod(i as int, n);
            let q = (i as int) / n;
            lemma_fundamental_div_mod(b + k, n);
            let q2 = (b + k) / n;
            assert(b + i == n * (q + q2) + (b + k) % n) by (nonlinear_arith)
                requires
                    i == n * q + k,
                    b + k == n * q2 + (b + k) % n,
            ;
            lemma_fundamental_div_mod_converse(b + i, n, q + q2, (b + k) % n);
        }
        self.data[slot]
    }
}

impl View for Cycle {
    type V = Seq<u8>;

    /// The bytes held, oldest first.
    closed spec fn view(&self) -> Seq<u8> {
        Seq::new(
            self.data.len() as nat,
            |k: int| self.data[(self.begin + k) % (self.data.len() as int)],
        )
    }
}

/// A token: distance back to the start of the copy, number of bytes copied, and
/// the literal byte that follows the copy.
pub type Token = (u16, u8, u8);

/// Number of bytes in the lookahead when the encoder stands at position `p` of
/// `x`.
pub open spec fn lookahead_len(x: Seq<u8>, p: int) -> int {
    if x.len() - p < VIEW_SIZE {
        x.len() - p
    } else {
        VIEW_SIZE as int
    }
}

/// Largest distance the encoder may use at position `p` of `x`: it reaches
/// neither before the start of `x` nor out of the history part of the window.
pub open spec fn max_distance(x: Seq<u8>, p: int) -> int {
    if p < WINDOW_SIZE - lookahead_len(x, p) {
        p
    } else {
        WINDOW_SIZE - lookahead_len(x, p)
    }
}

/// Whether the `l` bytes of `x` from position `p` repeat the `l` bytes that
/// start `d` bytes earlier. The two runs may overlap.
pub open spec fn repeats(x: Seq<u8>, p: int, d: int, l: int) -> bool {
    forall|i: int| 0 <= i < l ==> #[trigger] x[p - d + i] == x[p + i]
}

/// Whether `tok` describes bytes of `x` from position `p`: a copy that repeats
/// earlier bytes of `x` inside the window, then the literal that follows it.
pub open spec fn token_fits(x: Seq<u8>, p: int, tok: Token) -> bool {
    &&& 0 <= p
    &&& p + tok.1 < x.len()
    &&& tok.2 == x[p + tok.1]
    &&& tok.1 > 0 ==> 1 <= tok.0 <= p && tok.0 <= WINDOW_SIZE && repeats(
        x,
        p,
        tok.0 as int,
        tok.1 as int,
    )
}

/// Whether `tok` is the token the encoder emits at position `p` of `x`: its copy
/// is the longest one that any admissible distance allows and that leaves one
/// byte of the lookahead for the literal; among the distances that allow it, the
/// largest is taken; without any copy the distance is zero.
pub open spec fn token_is_longest(x: Seq<u8>, p: int, tok: Token) -> bool {
    &&& token_fits(x, p, tok)
    &&& tok.1 < lookahead_len(x, p)
    &&& tok.1 == 0 ==> tok.0 == 0
    &&& tok.1 > 0 ==> tok.0 <= max_distance(x, p)
    &&& tok.1 + 1 < lookahead_len(x, p) ==> forall|d: int|
        1 <= d <= max_distance(x, p) ==> !#[trigger] repeats(x, p, d, tok.1 + 1)
    &&& tok.1 > 0 ==> forall|d: int|
        tok.0 < d <= max_distance(x, p) ==> !#[trigger] repeats(x, p, d, tok.1 as int)
}

/// Whether `toks` are the tokens the encoder emits, one after the other, for
/// the bytes of `x` from position `p` up to position `q`.
pub open spec fn is_lz77_parse(x: Seq<u8>, p: int, toks: Seq<Token>, q: int) -> bool
    decreases toks.len(),
{
    if toks.len() == 0 {
        p == q
    } else {
        &&& token_is_longest(x, p, toks[0])
        &&& is_lz77_parse(x, p + toks[0].1 + 1, toks.skip(1), q)
    }
}

/// Whether `toks` is the encoding of all of `x`.
pub open spec fn is_lz77_encoding(x: Seq<u8>, toks: Seq<Token>) -> bool {
    is_lz77_parse(x, 0, toks, x.len() as int)
}

/// A copy that repeats `l` bytes also repeats any smaller number of them.
pub proof fn lemma_repeats_shorter(x: Seq<u8>, p: int, d: int, l: int, shorter: int)
    requires
        repeats(x, p, d, l),
        shorter <= l,
    ensures
        repeats(x, p, d, shorter),
{
}

/// The distance of an emitted token is below the window size, and its length
/// below the lookahead size.
pub proof fn lemma_parse_token_ranges(x: Seq<u8>, p: int, toks: Seq<Token>, q: int, i: int)
    requires
        is_lz77_parse(x, p, toks, q),
        0 <= i < toks.len(),
    ensures
        toks[i].0 < WINDOW_SIZE,
        toks[i].1 < VIEW_SIZE,
    decreases toks.len(),
{
    if i > 0 {
        lemma_parse_token_ranges(x, p + toks[0].1 + 1, toks.skip(1), q, i - 1);
    }
}

/// A parse can be extended at its end by the token that fits there.
pub proof fn lemma_parse_push(x: Seq<u8>, p: int, toks: Seq<Token>, q: int, tok: Token)
    requires
        is_lz77_parse(x, p, toks, q),
        token_is_longest(x, q, tok),
    ensures
        is_lz77_parse(x, p, toks.push(tok), q + tok.1 + 1),
    decreases toks.len(),
{
    let longer = toks.push(tok);
    if toks.len() == 0 {
        assert(longer.skip(1) =~= Seq::<Token>::empty());
        assert(is_lz77_parse(x, q + tok.1 + 1, longer.skip(1), q + tok.1 + 1));
        assert(longer[0] == tok);
    } else {
        lemma_parse_push(x, p + toks[0].1 + 1, toks.skip(1), q, tok);
        assert(longer.skip(1) =~= toks.skip(1).push(tok));
        assert(longer[0] == toks[0]);
    }
}

/// What the window holds once the first `read` bytes of `x` went through it:
/// the last `WINDOW_SIZE` of them, after as many zero bytes as it takes to fill
/// the window.
pub open spec fn window_after(x: Seq<u8>, read: int) -> Seq<u8> {
    Seq::new(
        WINDOW_SIZE as nat,
        |k: int|
            if read - WINDOW_SIZE + k >= 0 {
                x[read - WINDOW_SIZE + k]
            } else {
                0u8
            },
    )
}

/// The encoder, as a source of tokens: each call of `next` hands out the token
/// for the next bytes of the input.
pub struct LZ77CodingIter<'a> {
    input: &'a [u8],
    read: usize,
    window: Cycle,
    to_code: usize,
}

impl<'a> LZ77CodingIter<'a> {
    /// The input that is being encoded.
    pub closed spec fn source(&self) -> Seq<u8> {
        self.input@
    }

    /// Number of input bytes that the tokens handed out so far stand for.
    pub closed spec fn coded(&self) -> int {
        self.read - self.to_code
    }

    /// The window holds the bytes read so far, and the lookahead is the tail of
    /// what was read.
    pub closed spec fn wf(&self) -> bool {
        &&& self.window.wf()
        &&& self.window.size() == WINDOW_SIZE
        &&& self.to_code <= VIEW_SIZE
        &&& self.to_code <= self.read <= self.input@.len()
        &&& self.window@ == window_after(self.input@, self.read as int)
    }

    /// The position of the next token lies inside the input or at its end.
    pub proof fn lemma_coded_range(&self)
        requires
            self.wf(),
        ensures
            0 <= self.coded() <= self.source().len(),
    {
    }

    /// Hands out the next token, or `None` once the whole input is encoded.
    #[verifier::rlimit(40)]
    pub fn next(&mut self) -> (item: Option<Token>)
        requires
            old(self).wf(),
        ensures
            final(self).wf(),
            final(self).source() == old(self).source(),
            match item {
                None => {
                    &&& old(self).coded() == old(self).source().len()
                    &&& final(self).coded() == old(self).coded()
                },
                Some(tok) => {
                    &&& token_is_longest(old(self).source(), old(self).coded(), tok)
                    &&& final(self).coded() == old(self).coded() + tok.1 + 1
                },
            },
    {
        let ghost x = self.input@;
        let ghost p = self.read - self.to_code;
        while self.to_code < VIEW_SIZE && self.read < self.input.len()
            invariant
                self.wf(),
                self.input@ == x,
                self.read - self.to_code == p,
            decreases self.input@.len() - self.read,
        {
            let byte = self.input[self.read];
            proof {
                self.window.lemma_view_len();
            }
            self.window.push(byte);
            self.read = self.read + 1;
            self.to_code = self.to_code + 1;
            assert(self.window@ =~= window_after(x, self.read as int));
        }
        if self.to_code == 0 {
            return None;
        }
        let view = self.to_code;
        assert(view == lookahead_len(x, p));
        // the window holds history in [0, WINDOW_SIZE - view) and the lookahead after it
        let reach: usize = if self.read - view < WINDOW_SIZE - view {
            self.read - view
        } else {
            WINDOW_SIZE - view
        };
        assert(reach == max_distance(x, p));
        let mut len: usize = 0;
        let mut ptr: usize = 0;
        let mut d: usize = reach;
        proof {
            self.window.lemma_view_len();
        }
        while d > 0 && len + 1 < view
            invariant
                self.wf(),
                self.input@ == x,
                self.read - self.to_code == p,
                self.to_code == view,
                1 <= view <= VIEW_SIZE,
                view == lookahead_len(x, p),
                reach == max_distance(x, p),
                d <= reach,
                len < view,
                len == 0 ==> ptr == 0,
                len > 0 ==> d < ptr <= reach && repeats(x, p, ptr as int, len as int),
                len + 1 < view ==> forall|e: int|
                    d < e <= reach ==> !#[trigger] repeats(x, p, e, len + 1),
                len > 0 ==> forall|e: int|
                    ptr < e <= reach ==> !#[trigger] repeats(x, p, e, len as int),
            decreases d,
        {
            let start: usize = WINDOW_SIZE - view - d;
            let mut m: usize = 0;
            while m + 1 < view && self.window.index(start as isize + m as isize)
                == self.window.index(m as isize - view as isize)
                invariant
                    self.wf(),
                    self.input@ == x,
                    self.read - self.to_code == p,
                    self.to_code == view,
                    1 <= view <= VIEW_SIZE,
                    1 <= d <= reach,
                    reach == max_distance(x, p),
                    view == lookahead_len(x, p),
                    start == WINDOW_SIZE - view - d,
                    m < view,
                    repeats(x, p, d as int, m as int),
                    self.window@.len() == WINDOW_SIZE,
                decreases view - m,
            {
                proof {
                    let k1 = start + m;
                    let k2 = WINDOW_SIZE - view + m;
                    lemma_fundamental_div_mod_converse(k1 as int, WINDOW_SIZE as int, 0, k1 as int);
                    lemma_fundamental_div_mod_converse(
                        m - view,
                        WINDOW_SIZE as int,
                        -1,
                        k2 as int,
                    );
                    assert(self.window@[k1 as int] == x[p - d + m]);
                    assert(self.window@[k2 as int] == x[p + m]);
                }
                m = m + 1;
            }
            proof {
                if m + 1 < view {
                    let k1 = start + m;
                    let k2 = WINDOW_SIZE - view + m;
                    lemma_fundamental_div_mod_converse(k1 as int, WINDOW_SIZE as int, 0, k1 as int);
                    lemma_fundamental_div_mod_converse(
                        m - view,
                        WINDOW_SIZE as int,
                        -1,
                        k2 as int,
                    );
                    assert(self.window@[k1 as int] == x[p - d + m]);
                    assert(self.window@[k2 as int] == x[p + m]);
                    assert(x[p - d + m] != x[p + m]);
                    assert(!repeats(x, p, d as int, m + 1));
                }
            }
            if m > len {
                proof {
                    assert forall|e: int| d < e <= reach implies !#[trigger] repeats(
                        x,
                        p,
                        e,
                        m as int,
                    ) by {
                        if repeats(x, p, e, m as int) {
                            lemma_repeats_shorter(x, p, e, m as int, len + 1);
                        }
                    }
                    if m + 1 < view {
                        assert forall|e: int| d - 1 < e <= reach implies !#[trigger] repeats(
                            x,
                            p,
                            e,
                            m + 1,
                        ) by {
                            if e > d && repeats(x, p, e, m + 1) {
                                lemma_repeats_shorter(x, p, e, m + 1, len + 1);
                            }
                        }
                    }
                }
                len = m;
                ptr = d;
            } else {
                proof {
                    if len + 1 < view {
                        assert(!repeats(x, p, d as int, len + 1)) by {
                            if repeats(x, p, d as int, len + 1) {
                                lemma_repeats_shorter(x, p, d as int, len + 1, m + 1);
                            }
                        }
                    }
                }
            }
            d = d - 1;
        }
        proof {
            let k2 = WINDOW_SIZE - view + len;
            lemma_fundamental_div_mod_converse(len - view, WINDOW_SIZE as int, -1, k2 as int);
            assert(self.window@[k2 as int] == x[p + len]);
        }
        let k = self.window.index(len as isize - view as isize);
        self.to_code = self.to_code - (len + 1);
        Some((ptr as u16, len as u8, k))
    }

    /// Hands out all remaining tokens.
    pub fn collect(self) -> (toks: Vec<Token>)
        requires
            self.wf(),
        ensures
            is_lz77_parse(self.source(), self.coded(), toks@, self.source().len() as int),
    {
        let mut it = self;
        let ghost x = it.source();
        let ghost start = it.coded();
        let mut toks: Vec<Token> = Vec::new();
        loop
            invariant
                it.wf(),
                it.source() == x,
                start <= it.coded() <= x.len(),
                is_lz77_parse(x, start, toks@, it.coded()),
            ensures
                is_lz77_parse(x, start, toks@, x.len() as int),
            decreases x.len() - it.coded(),
        {
            let ghost q = it.coded();
            let ghost before = toks@;
            match it.next() {
                None => {
                    break ;
                },
                Some(tok) => {
                    toks.push(tok);
                    proof {
                        lemma_parse_push(x, start, before, q, tok);
                        it.lemma_coded_range();
                    }
                },
            }
        }
        toks
    }
}

/// Starts encoding `input`.
pub fn lz77_coding<'a>(input: &'a [u8]) -> (it: LZ77CodingIter<'a>)
    ensures
        it.wf(),
        it.source() == input@,
        it.coded() == 0,
{
    let window = Cycle::new(WINDOW_SIZE);
    let it = LZ77CodingIter { input, read: 0, window, to_code: 0 };
    assert(it.window@ =~= window_after(input@, 0));
    it
}

/// `out` after `l` bytes were copied to its end one at a time, each from `d`
/// bytes before the end at that moment.
pub open spec fn lz77_copy(out: Seq<u8>, d: int, l: nat) -> Seq<u8>
    decreases l,
{
    if l == 0 {
        out
    } else {
        let prev = lz77_copy(out, d, (l - 1) as nat);
        prev.push(prev[prev.len() - d])
    }
}

/// Whether the decoder can apply `tok` after `done` bytes of output: a copy
/// needs a distance of at least one that reaches neither before the start of
/// the output nor out of the window.
pub open spec fn token_applies(done: nat, tok: Token) -> bool {
    tok.1 > 0 ==> 1 <= tok.0 <= done && tok.0 <= WINDOW_SIZE
}

/// `out` after `tok` was applied to it: the copy, then the literal.
pub open spec fn lz77_apply(out: Seq<u8>, tok: Token) -> Result<Seq<u8>, DecodeError> {
    if token_applies(out.len(), tok) {
        Ok(lz77_copy(out, tok.0 as int, tok.1 as nat).push(tok.2))
    } else {
        Err(DecodeError::MalformedTokenStream)
    }
}

/// `out` after the first `n` tokens of `toks` were applied in order, or the
/// error of the first of them that cannot be applied.
pub open spec fn lz77_decode_upto(out: Seq<u8>, toks: Seq<Token>, n: nat) -> Result<
    Seq<u8>,
    DecodeError,
>
    decreases n,
{
    if n == 0 {
        Ok(out)
    } else {
        match lz77_decode_upto(out, toks, (n - 1) as nat) {
            Ok(prev) => lz77_apply(prev, toks[n - 1]),
            Err(e) => Err(e),
        }
    }
}

/// The bytes that `toks` stand for.
pub open spec fn lz77_decode(toks: Seq<Token>) -> Result<Seq<u8>, DecodeError> {
    lz77_decode_upto(Seq::<u8>::empty(), toks, toks.len())
}

/// Copying keeps what was there and adds `l` bytes.
pub proof fn lemma_copy_extends(out: Seq<u8>, d: int, l: nat)
    ensures
        lz77_copy(out, d, l).len() == out.len() + l,
        lz77_copy(out, d, l).take(out.len() as int) == out,
    decreases l,
{
    if l > 0 {
        lemma_copy_extends(out, d, (l - 1) as nat);
        let prev = lz77_copy(out, d, (l - 1) as nat);
        assert(prev.push(prev[prev.len() - d]).take(out.len() as int) =~= prev.take(
            out.len() as int,
        ));
    } else {
        assert(out.take(out.len() as int) =~= out);
    }
}

/// Once a token cannot be applied, decoding more tokens gives the same error.
pub proof fn lemma_decode_error_stays(out: Seq<u8>, toks: Seq<Token>, n: nat, m: nat)
    requires
        n <= m,
        lz77_decode_upto(out, toks, n) is Err,
    ensures
        lz77_decode_upto(out, toks, m) == lz77_decode_upto(out, toks, n),
    decreases m,
{
    if n < m {
        lemma_decode_error_stays(out, toks, n, (m - 1) as nat);
    }
}

/// What more tokens decode to starts with what fewer tokens decode to.
pub proof fn lemma_decode_grows(out: Seq<u8>, toks: Seq<Token>, n: nat, m: nat)
    requires
        n <= m,
        lz77_decode_upto(out, toks, m) is Ok,
    ensures
        lz77_decode_upto(out, toks, n) is Ok,
        lz77_decode_upto(out, toks, n)->Ok_0.len() <= lz77_decode_upto(out, toks, m)->Ok_0.len(),
        lz77_decode_upto(out, toks, m)->Ok_0.take(
            lz77_decode_upto(out, toks, n)->Ok_0.len() as int,
        ) == lz77_decode_upto(out, toks, n)->Ok_0,
    decreases m,
{
    let full = lz77_decode_upto(out, toks, m)->Ok_0;
    if n < m {
        let prev = lz77_decode_upto(out, toks, (m - 1) as nat)->Ok_0;
        lemma_decode_grows(out, toks, n, (m - 1) as nat);
        let part = lz77_decode_upto(out, toks, n)->Ok_0;
        let tok = toks[m - 1];
        lemma_copy_extends(prev, tok.0 as int, tok.1 as nat);
        let copied = lz77_copy(prev, tok.0 as int, tok.1 as nat);
        assert(full == copied.push(tok.2));
        assert(full.take(prev.len() as int) =~= copied.take(prev.len() as int));
        assert(full.take(part.len() as int) =~= prev.take(part.len() as int));
    } else {
        assert(full.take(full.len() as int) =~= full);
    }
}

/// A copy that repeats earlier bytes of `x` reproduces the bytes of `x`.
pub proof fn lemma_copy_of_repeat(x: Seq<u8>, p: int, d: int, l: nat)
    requires
        0 <= p,
        p + l <= x.len(),
        1 <= d <= p,
        repeats(x, p, d, l as int),
    ensures
        lz77_copy(x.take(p), d, l) == x.take(p + l),
    decreases l,
{
    if l > 0 {
        lemma_repeats_shorter(x, p, d, l as int, l - 1);
        lemma_copy_of_repeat(x, p, d, (l - 1) as nat);
        let prev = x.take(p + l - 1);
        assert(prev[prev.len() - d] == x[p - d + (l - 1)]);
        assert(x[p - d + (l - 1)] == x[p + (l - 1)]);
        assert(prev.push(x[p + l - 1]) =~= x.take(p + l));
    }
}

/// Applying a token that fits at position `p` of `x` to the first `p` bytes of
/// `x` gives the bytes of `x` up to the end of the token.
pub proof fn lemma_apply_fitting_token(x: Seq<u8>, p: int, tok: Token)
    requires
        token_fits(x, p, tok),
    ensures
        lz77_apply(x.take(p), tok) == Ok::<Seq<u8>, DecodeError>(x.take(p + tok.1 + 1)),
{
    if tok.1 > 0 {
        lemma_copy_of_repeat(x, p, tok.0 as int, tok.1 as nat);
    }
    assert(x.take(p + tok.1).push(tok.2) =~= x.take(p + tok.1 + 1));
}

/// Decoding the tokens of a parse of `x[p..q]`, after the first `p` bytes of
/// `x`, gives the first `q` bytes of `x`.
pub proof fn lemma_decode_of_parse(x: Seq<u8>, p: int, toks: Seq<Token>, q: int, n: nat)
    requires
        0 <= p <= x.len(),
        is_lz77_parse(x, p, toks, q),
        n <= toks.len(),
    ensures
        lz77_decode_upto(x.take(p), toks, n) is Ok,
        is_lz77_parse(x, lz77_decode_upto(x.take(p), toks, n)->Ok_0.len() as int, toks.skip(n as int), q),
        lz77_decode_upto(x.take(p), toks, n)->Ok_0 == x.take(
            lz77_decode_upto(x.take(p), toks, n)->Ok_0.len() as int,
        ),
        lz77_decode_upto(x.take(p), toks, n)->Ok_0.len() <= x.len(),
    decreases n,
{
    if n == 0 {
        assert(toks.skip(0) =~= toks);
    } else {
        lemma_decode_of_parse(x, p, toks, q, (n - 1) as nat);
        let prev = lz77_decode_upto(x.take(p), toks, (n - 1) as nat)->Ok_0;
        let at = prev.len() as int;
        let rest = toks.skip(n - 1);
        assert(rest[0] == toks[n - 1]);
        assert(rest.skip(1) =~= toks.skip(n as int));
        lemma_apply_fitting_token(x, at, toks[n - 1]);
    }
}

/// Encoding loses nothing: the tokens that encode `x` decode to `x`.
pub proof fn lemma_lz77_round_trip(x: Seq<u8>, toks: Seq<Token>)
    requires
        is_lz77_encoding(x, toks),
    ensures
        lz77_decode(toks) == Ok::<Seq<u8>, DecodeError>(x),
{
    assert(x.take(0) =~= Seq::<u8>::empty());
    lemma_decode_of_parse(x, 0, toks, x.len() as int, toks.len());
    let out = lz77_decode(toks)->Ok_0;
    assert(toks.skip(toks.len() as int) =~= Seq::<Token>::empty());
    assert(out.len() == x.len());
    assert(x.take(x.len() as int) =~= x);
}

/// The decoder, as a source of bytes: each call of `next` hands out the next
/// byte that the tokens stand for.
pub struct LZ77DecodingIter<'a> {
    tokens: &'a [Token],
    taken: usize,
    window: Cycle,
    decoded: usize,
    filled: usize,
    written: Ghost<Seq<u8>>,
}

impl<'a> LZ77DecodingIter<'a> {
    /// The tokens that are being decoded.
    pub closed spec fn source(&self) -> Seq<Token> {
        self.tokens@
    }

    /// The bytes handed out so far.
    pub closed spec fn emitted(&self) -> Seq<u8> {
        self.written@.take(self.written@.len() - self.decoded)
    }

    /// The window holds what the tokens taken so far decode to, and the bytes
    /// not handed out yet are the newest in it.
    pub closed spec fn wf(&self) -> bool {
        &&& self.window.wf()
        &&& self.window.size() == WINDOW_SIZE
        &&& self.taken <= self.tokens@.len()
        &&& lz77_decode_upto(Seq::<u8>::empty(), self.tokens@, self.taken as nat) == Ok::<
            Seq<u8>,
            DecodeError,
        >(self.written@)
        &&& self.decoded <= self.written@.len()
        &&& self.decoded <= 256
        &&& self.filled <= WINDOW_SIZE
        &&& self.filled == (if self.written@.len() < WINDOW_SIZE {
            self.written@.len()
        } else {
            WINDOW_SIZE as nat
        })
        &&& self.window@ == window_after(self.written@, self.written@.len() as int)
    }

    /// Number of tokens that the decoder has taken in.
    pub closed spec fn tokens_taken(&self) -> nat {
        self.taken as nat
    }

    /// The bytes handed out so far are the first bytes of what the tokens
    /// taken in so far decode to.
    pub proof fn lemma_emitted_is_decoded(&self)
        requires
            self.wf(),
        ensures
            self.tokens_taken() <= self.source().len(),
            lz77_decode_upto(Seq::<u8>::empty(), self.source(), self.tokens_taken()) matches Ok(
                decoded,
            ) && self.emitted().len() <= decoded.len() && decoded.take(
                self.emitted().len() as int,
            ) == self.emitted(),
    {
    }

    /// Where the whole token sequence can be decoded, the bytes handed out so
    /// far are the first bytes of what it decodes to.
    pub proof fn lemma_emitted_is_prefix(&self)
        requires
            self.wf(),
            lz77_decode(self.source()) is Ok,
        ensures
            self.emitted().len() <= lz77_decode(self.source())->Ok_0.len(),
            lz77_decode(self.source())->Ok_0.take(self.emitted().len() as int) == self.emitted(),
    {
        let full = lz77_decode(self.source())->Ok_0;
        lemma_decode_grows(
            Seq::<u8>::empty(),
            self.tokens@,
            self.taken as nat,
            self.tokens@.len(),
        );
        assert(full.take(self.emitted().len() as int) =~= self.written@.take(
            self.emitted().len() as int,
        ));
    }

    /// Number of steps the decoder still has to make at most, for use as a
    /// measure of progress.
    pub closed spec fn remaining_work(&self) -> (nat, nat) {
        ((self.tokens@.len() - self.taken) as nat, self.decoded as nat)
    }

    /// Hands out the next byte, `None` once all tokens are decoded, or the
    /// error of a token that cannot be applied.
    #[verifier::rlimit(40)]
    pub fn next(&mut self) -> (item: Result<Option<u8>, DecodeError>)
        requires
            old(self).wf(),
        ensures
            final(self).wf(),
            final(self).source() == old(self).source(),
            match item {
                Ok(Some(byte)) => {
                    &&& final(self).emitted() == old(self).emitted().push(byte)
                    &&& (final(self).remaining_work().0 < old(self).remaining_work().0 || (
                    final(self).remaining_work().0 == old(self).remaining_work().0
                        && final(self).remaining_work().1 < old(self).remaining_work().1))
                },
                Ok(None) => {
                    &&& final(self).emitted() == old(self).emitted()
                    &&& lz77_decode(old(self).source()) == Ok::<Seq<u8>, DecodeError>(
                        old(self).emitted(),
                    )
                },
                Err(e) => {
                    &&& final(self).emitted() == old(self).emitted()
                    &&& lz77_decode(old(self).source()) == Err::<Seq<u8>, DecodeError>(e)
                },
            },
    {
        proof {
            self.window.lemma_view_len();
        }
        if self.decoded == 0 {
            if self.taken >= self.tokens.len() {
                assert(self.written@.take(self.written@.len() as int) =~= self.written@);
                return Ok(None);
            }
            let (ptr, len, byte) = self.tokens[self.taken];
            let ghost toks = self.tokens@;
            let ghost before = self.written@;
            let ghost tok = toks[self.taken as int];
            assert(before.take(before.len() as int) =~= before);
            if len > 0 && (ptr == 0 || ptr as usize > self.filled) {
                proof {
                    assert(!token_applies(before.len(), tok));
                    assert(lz77_decode_upto(Seq::<u8>::empty(), toks, (self.taken + 1) as nat)
                        == Err::<Seq<u8>, DecodeError>(DecodeError::MalformedTokenStream));
                    lemma_decode_error_stays(
                        Seq::<u8>::empty(),
                        toks,
                        (self.taken + 1) as nat,
                        toks.len(),
                    );
                }
                return Err(DecodeError::MalformedTokenStream);
            }
            assert(token_applies(before.len(), tok));
            let ghost filled_before = self.filled;
            let ghost taken_before = self.taken;
            let mut i: u8 = 0;
            while i < len
                invariant
                    i <= len,
                    self.filled == filled_before,
                    self.taken == taken_before,
                    len == tok.1,
                    ptr == tok.0,
                    token_applies(before.len(), tok),
                    self.window.wf(),
                    self.window.size() == WINDOW_SIZE,
                    self.window@.len() == WINDOW_SIZE,
                    self.tokens@ == toks,
                    self.taken < toks.len(),
                    self.written@ == lz77_copy(before, ptr as int, i as nat),
                    self.written@.len() == before.len() + i,
                    self.window@ == window_after(self.written@, self.written@.len() as int),
                    self.decoded == 0,
                decreases len - i,
            {
                let ghost cur = self.written@;
                proof {
                    let k = WINDOW_SIZE - ptr;
                    if ptr < WINDOW_SIZE {
                        lemma_fundamental_div_mod_converse(k as int, WINDOW_SIZE as int, 0, k as int);
                    } else {
                        lemma_fundamental_div_mod_converse(k as int, WINDOW_SIZE as int, 0, 0);
                    }
                    assert(self.window@[k as int] == cur[cur.len() - ptr]);
                }
                let copied = self.window.index(WINDOW_SIZE as isize - ptr as isize);
                self.window.push(copied);
                i = i + 1;
                proof {
                    self.written@ = cur.push(copied);
                    self.window.lemma_view_len();
                    assert(self.window@ =~= window_after(
                        self.written@,
                        self.written@.len() as int,
                    ));
                }
            }
            let ghost copied_all = self.written@;
            self.window.push(byte);
            proof {
                self.written@ = copied_all.push(byte);
                self.window.lemma_view_len();
                assert(self.window@ =~= window_after(self.written@, self.written@.len() as int));
                assert(lz77_apply(before, tok) == Ok::<Seq<u8>, DecodeError>(self.written@));
            }
            self.decoded = len as usize + 1;
            self.filled = if self.filled + (len as usize + 1) < WINDOW_SIZE {
                self.filled + (len as usize + 1)
            } else {
                WINDOW_SIZE
            };
            self.taken = self.taken + 1;
            proof {
                lemma_copy_extends(before, ptr as int, len as nat);
                assert(self.written@.take(before.len() as int) =~= copied_all.take(
                    before.len() as int,
                ));
            }
        }
        proof {
            let k = WINDOW_SIZE - self.decoded;
            lemma_fundamental_div_mod_converse(
                -(self.decoded as int),
                WINDOW_SIZE as int,
                -1,
                k as int,
            );
            assert(self.window@[k as int] == self.written@[self.written@.len() - self.decoded]);
        }
        let ghost shown = self.emitted();
        let result = self.window.index(-(self.decoded as isize));
        self.decoded = self.decoded - 1;
        assert(self.emitted() =~= shown.push(result));
        Ok(Some(result))
    }

    /// Hands out all remaining bytes, or the error of the first token that
    /// cannot be applied.
    pub fn collect(self) -> (bytes: Result<Vec<u8>, DecodeError>)
        requires
            self.wf(),
        ensures
            match bytes {
                Ok(v) => lz77_decode(self.source()) == Ok::<Seq<u8>, DecodeError>(
                    self.emitted() + v@,
                ),
                Err(e) => lz77_decode(self.source()) == Err::<Seq<u8>, DecodeError>(e),
            },
    {
        let mut it = self;
        let ghost toks = it.source();
        let ghost start = it.emitted();
        let mut out: Vec<u8> = Vec::new();
        assert(start + out@ =~= start);
        loop
            invariant
                it.wf(),
                toks == self.source(),
                start == self.emitted(),
                it.source() == toks,
                it.emitted() == start + out@,
            decreases it.remaining_work().0, it.remaining_work().1,
        {
            let ghost shown = it.emitted();
            let ghost collected = out@;
            match it.next() {
                Ok(Some(byte)) => {
                    out.push(byte);
                    assert(start + out@ =~= (start + collected).push(byte));
                },
                Ok(None) => {
                    return Ok(out);
                },
                Err(e) => {
                    return Err(e);
                },
            }
        }
    }
}

/// Starts decoding `tokens`.
pub fn lz77_decoding<'a>(tokens: &'a [Token]) -> (it: LZ77DecodingIter<'a>)
    ensures
        it.wf(),
        it.source() == tokens@,
        it.emitted() == Seq::<u8>::empty(),
{
    let window = Cycle::new(WINDOW_SIZE);
    let it = LZ77DecodingIter {
        tokens,
        taken: 0,
        window,
        decoded: 0,
        filled: 0,
        written: Ghost(Seq::<u8>::empty()),
    };
    assert(it.window@ =~= window_after(Seq::<u8>::empty(), 0));
    assert(it.emitted() =~= Seq::<u8>::empty());
    it
}

} // verus!
