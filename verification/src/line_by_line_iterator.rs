use vstd::prelude::*;
use vstd::string::*;
use vstd::utf8::*;

verus! {

/// Capacity of the line buffer. Data that fills it without a line break is discarded.
/// A typical GPS sentence is about 80 characters long.
pub const MAX_BUFFER: usize = 512;

/// Line feed, which ends a line.
pub const NEWLINE: u8 = 10;

/// Carriage return, dropped when it comes right before the line feed.
pub const CARRIAGE_RETURN: u8 = 13;

/// Index of the first line feed in `s` at or after `k`, or `s.len()` when there is none.
pub open spec fn newline_from(s: Seq<u8>, k: int) -> int
    decreases s.len() - k,
{
    if k < 0 || k >= s.len() {
        s.len() as int
    } else if s[k] == NEWLINE {
        k
    } else {
        newline_from(s, k + 1)
    }
}

/// Index of the first line feed in `s`, or `s.len()` when there is none.
pub open spec fn first_newline(s: Seq<u8>) -> int {
    newline_from(s, 0)
}

/// End of the line that the line feed at `p` closes: a carriage return before it is dropped.
pub open spec fn line_end(s: Seq<u8>, p: int) -> int {
    if p > 0 && s[p - 1] == CARRIAGE_RETURN {
        p - 1
    } else {
        p
    }
}

/// `newline_from` gives the first line feed at or after `k`, or the length.
pub proof fn lemma_newline_from_bounds(s: Seq<u8>, k: int)
    requires
        0 <= k,
    ensures
        k <= newline_from(s, k) || k > s.len(),
        newline_from(s, k) <= s.len(),
        newline_from(s, k) < s.len() ==> s[newline_from(s, k)] == NEWLINE,
        forall|j: int| k <= j < newline_from(s, k) ==> s[j] != NEWLINE,
    decreases s.len() - k,
{
    if k < s.len() && s[k] != NEWLINE {
        lemma_newline_from_bounds(s, k + 1);
    }
}

proof fn lemma_newline_at(s: Seq<u8>, k: int, p: int)
    requires
        0 <= k <= p <= s.len(),
        forall|j: int| k <= j < p ==> s[j] != NEWLINE,
        p == s.len() || s[p] == NEWLINE,
    ensures
        newline_from(s, k) == p,
    decreases p - k,
{
    if k < p {
        lemma_newline_at(s, k + 1, p);
    }
}

/// Splits the buffered bytes `s` into the complete lines it holds and the
/// bytes left after the last line feed. A line is what comes before its line
/// feed, without one carriage return right before it; empty lines and lines
/// that are not valid UTF-8 are skipped.
pub open spec fn split_lines(s: Seq<u8>) -> (Seq<Seq<char>>, Seq<u8>)
    decreases s.len(),
{
    let p = first_newline(s);
    if p >= s.len() {
        (Seq::empty(), s)
    } else {
        proof {
            lemma_newline_from_bounds(s, 0);
        }
        let end = line_end(s, p);
        let line = s.take(end);
        let rest = split_lines(s.skip(p + 1));
        if end > 0 && valid_utf8(line) {
            (seq![decode_utf8(line)] + rest.0, rest.1)
        } else {
            rest
        }
    }
}

/// After the complete lines are taken out, no line feed is left, and what
/// is left is the tail of the buffered bytes.
pub proof fn lemma_split_lines_rest(s: Seq<u8>)
    ensures
        !split_lines(s).1.contains(NEWLINE),
        split_lines(s).1.len() <= s.len(),
        split_lines(s).1 == s.skip(s.len() - split_lines(s).1.len()),
    decreases s.len(),
{
    lemma_newline_from_bounds(s, 0);
    let p = first_newline(s);
    if p >= s.len() {
        assert(s.skip(0) =~= s);
        if s.contains(NEWLINE) {
            let j = choose|j: int| 0 <= j < s.len() && s[j] == NEWLINE;
            assert(false);
        }
    } else {
        let t = s.skip(p + 1);
        lemma_split_lines_rest(t);
        let r = split_lines(t).1;
        assert(split_lines(s).1 == r);
        assert(t.skip(t.len() - r.len()) =~= s.skip(s.len() - r.len()));
    }
}

proof fn lemma_encoded_newline(chars: Seq<char>)
    requires
        chars.contains('\n'),
    ensures
        encode_utf8(chars).contains(NEWLINE),
    decreases chars.len(),
{
    let rest = chars.drop_first();
    if chars[0] == '\n' {
        assert((10u32 & 0x7f) as u8 == 10u8) by (bit_vector);
        assert(encode_utf8(chars)[0] == NEWLINE);
    } else {
        let i = choose|i: int| 0 <= i < chars.len() && chars[i] == '\n';
        assert(rest[i - 1] == '\n');
        lemma_encoded_newline(rest);
        let e = encode_utf8(rest);
        let j = choose|j: int| 0 <= j < e.len() && e[j] == NEWLINE;
        let first = encode_scalar(chars[0] as u32);
        assert(encode_utf8(chars)[first.len() + j] == NEWLINE);
    }
}

/// No line handed out holds a line feed.
pub proof fn lemma_split_lines_no_newline(s: Seq<u8>)
    ensures
        forall|i: int|
            0 <= i < split_lines(s).0.len() ==> !(#[trigger] split_lines(s).0[i]).contains('\n'),
    decreases s.len(),
{
    lemma_newline_from_bounds(s, 0);
    let p = first_newline(s);
    if p < s.len() {
        let end = line_end(s, p);
        let line = s.take(end);
        let t = s.skip(p + 1);
        lemma_split_lines_no_newline(t);
        if end > 0 && valid_utf8(line) {
            let d = decode_utf8(line);
            if d.contains('\n') {
                lemma_encoded_newline(d);
                decode_utf8_encode_utf8(line);
                assert(encode_utf8(d) == line);
                assert(line.contains(NEWLINE));
                let j = choose|j: int| 0 <= j < line.len() && line[j] == NEWLINE;
                assert(s[j] == NEWLINE);
                assert(false);
            }
            let out = split_lines(s).0;
            assert(out == seq![d] + split_lines(t).0);
            assert forall|i: int| 0 <= i < out.len() implies !(#[trigger] out[i]).contains('\n') by {
                if i > 0 {
                    assert(out[i] == split_lines(t).0[i - 1]);
                }
            }
        } else {
            assert(split_lines(s).0 == split_lines(t).0);
        }
    } else {
        assert(split_lines(s).0 == Seq::<Seq<char>>::empty());
    }
}

/// Taking the lines out after `a` and again after `b` arrives gives the same
/// lines, in the same order, and leaves the same bytes, as taking them out
/// once after `a + b`: how the data is split into reads does not matter.
pub proof fn lemma_split_lines_append(a: Seq<u8>, b: Seq<u8>)
    ensures
        split_lines(a).0 + split_lines(split_lines(a).1 + b).0 == split_lines(a + b).0,
        split_lines(split_lines(a).1 + b).1 == split_lines(a + b).1,
    decreases a.len(),
{
    lemma_newline_from_bounds(a, 0);
    let p = first_newline(a);
    if p >= a.len() {
        assert(split_lines(a).0 + split_lines(a + b).0 =~= split_lines(a + b).0);
    } else {
        let ab = a + b;
        assert forall|j: int| 0 <= j < p implies ab[j] != NEWLINE by {
            assert(ab[j] == a[j]);
        }
        lemma_newline_at(ab, 0, p);
        let t = a.skip(p + 1);
        assert(ab.skip(p + 1) =~= t + b);
        assert(ab.take(line_end(ab, p)) =~= a.take(line_end(a, p)));
        lemma_split_lines_append(t, b);
        let end = line_end(a, p);
        let line = a.take(end);
        if end > 0 && valid_utf8(line) {
            let l = seq![decode_utf8(line)];
            assert(split_lines(a).0 == l + split_lines(t).0);
            assert(split_lines(ab).0 == l + split_lines(t + b).0);
            assert(split_lines(a).0 + split_lines(split_lines(a).1 + b).0 =~= l + (split_lines(
                t,
            ).0 + split_lines(split_lines(t).1 + b).0));
        }
    }
}

/// Filling the buffer with `a`, taking the lines out, then filling it with `b`
/// and taking the lines out again hands out the same lines and keeps the same
/// bytes as filling it with `a + b` at once, whenever everything fits in the
/// buffer, except where `a` leaves it full without a line feed (the next fill
/// then discards those bytes).
pub proof fn lemma_fill_chunks(s: Seq<u8>, a: Seq<u8>, b: Seq<u8>)
    requires
        s.len() < MAX_BUFFER,
        s.len() + a.len() + b.len() <= MAX_BUFFER,
        split_lines(after_fill(s, a)).1.len() < MAX_BUFFER,
    ensures
        ({
            let x = after_fill(s, a);
            let y = after_fill(split_lines(x).1, b);
            let z = after_fill(s, a + b);
            &&& split_lines(x).0 + split_lines(y).0 == split_lines(z).0
            &&& split_lines(y).1 == split_lines(z).1
        }),
{
    let x = after_fill(s, a);
    assert(x =~= s + a);
    lemma_split_lines_rest(x);
    assert(after_fill(split_lines(x).1, b) =~= split_lines(x).1 + b);
    assert(after_fill(s, a + b) =~= (s + a) + b);
    lemma_split_lines_append(s + a, b);
}

/// `str::from_utf8` (std): the bytes are accepted exactly when they are valid
/// UTF-8, and then the string slice holds those very bytes.
#[verifier::external_body]
fn utf8_str(bytes: &[u8]) -> (r: Option<&str>)
    ensures
        r is Some <==> valid_utf8(bytes@),
        r matches Some(s) ==> s.spec_bytes() == bytes@,
{
    std::str::from_utf8(bytes).ok()
}

/// The character sequences of a list of strings.
pub open spec fn strings_view(v: Seq<String>) -> Seq<Seq<char>> {
    v.map_values(|l: String| l@)
}

/// What is kept of the buffered bytes `s` before new data comes in: nothing
/// when the buffer is full.
pub open spec fn fill_base(s: Seq<u8>) -> Seq<u8> {
    if s.len() >= MAX_BUFFER {
        Seq::empty()
    } else {
        s
    }
}

/// How many bytes of `data` fit after `fill_base(s)`.
pub open spec fn fill_taken(s: Seq<u8>, data: Seq<u8>) -> nat {
    let room = MAX_BUFFER - fill_base(s).len();
    if data.len() <= room {
        data.len()
    } else {
        room as nat
    }
}

/// The buffered bytes after `data` was appended to `s`.
pub open spec fn after_fill(s: Seq<u8>, data: Seq<u8>) -> Seq<u8> {
    fill_base(s) + data.take(fill_taken(s, data) as int)
}

/// Filling never takes more than the free space: while the buffer is not
/// full, the bytes it holds stay in front and as much of `data` as fits (all
/// of it, or exactly the free space) follows them; a full buffer is emptied
/// first, and then at most `MAX_BUFFER` bytes of `data` are taken.
pub proof fn lemma_fill_in_free_space(s: Seq<u8>, data: Seq<u8>)
    ensures
        s.len() < MAX_BUFFER ==> {
            &&& fill_taken(s, data) <= MAX_BUFFER - s.len()
            &&& fill_taken(s, data) <= data.len()
            &&& (fill_taken(s, data) == data.len() || fill_taken(s, data) == MAX_BUFFER
                - s.len())
            &&& data.len() <= MAX_BUFFER - s.len() ==> fill_taken(s, data) == data.len()
            &&& after_fill(s, data) == s + data.take(fill_taken(s, data) as int)
            &&& after_fill(s, data).take(s.len() as int) == s
            &&& after_fill(s, data).len() <= MAX_BUFFER
        },
        s.len() >= MAX_BUFFER ==> {
            &&& fill_taken(s, data) <= MAX_BUFFER
            &&& (fill_taken(s, data) == data.len() || fill_taken(s, data) == MAX_BUFFER)
            &&& after_fill(s, data) == data.take(fill_taken(s, data) as int)
        },
{
    if s.len() < MAX_BUFFER {
        let a = after_fill(s, data);
        assert(a.take(s.len() as int) =~= s);
    } else {
        assert(Seq::<u8>::empty() + data.take(fill_taken(s, data) as int) =~= data.take(
            fill_taken(s, data) as int,
        ));
    }
}

/// Accumulates bytes from a serial stream and hands out complete lines.
pub struct LineByLineIterator {
    /// Read buffer
    buf: Vec<u8>,
    /// How many bytes of `buf` are valid
    fill: usize,
}

impl View for LineByLineIterator {
    type V = Seq<u8>;

    /// The bytes buffered and not yet handed out.
    closed spec fn view(&self) -> Seq<u8> {
        self.buf@.take(self.fill as int)
    }
}

impl LineByLineIterator {
    /// The buffer has its fixed capacity and the fill level is within it.
    pub closed spec fn wf(&self) -> bool {
        self.buf@.len() == MAX_BUFFER && self.fill <= MAX_BUFFER
    }

    /// A well-formed buffer never holds more than `MAX_BUFFER` bytes.
    pub proof fn lemma_wf_len(&self)
        requires
            self.wf(),
        ensures
            self@.len() <= MAX_BUFFER,
    {
    }

    /// An empty buffer.
    pub fn new() -> (it: Self)
        ensures
            it.wf(),
            it@ == Seq::<u8>::empty(),
    {
        let it = Self { buf: vec![0; MAX_BUFFER], fill: 0 };
        assert(it@ =~= Seq::<u8>::empty());
        it
    }

    /// How many bytes the next `fill_from` takes: the free space, or the
    /// whole buffer when it is full (its content is then discarded).
    pub fn space_for_next_fill(&self) -> (r: usize)
        requires
            self.wf(),
        ensures
            r == if self@.len() >= MAX_BUFFER {
                MAX_BUFFER as int
            } else {
                MAX_BUFFER - self@.len()
            },
            0 < r <= MAX_BUFFER,
    {
        if self.fill >= MAX_BUFFER {
            MAX_BUFFER
        } else {
            MAX_BUFFER - self.fill
        }
    }

    /// Appends the bytes just read. When the buffer is full (no line break in
    /// `MAX_BUFFER` bytes) its content is discarded first. Takes at most
    /// the free space and returns how many bytes it took.
    pub fn fill_from(&mut self, data: &[u8]) -> (n: usize)
        requires
            old(self).wf(),
        ensures
            final(self).wf(),
            n == fill_taken(old(self)@, data@),
            final(self)@ == after_fill(old(self)@, data@),
            old(self)@.len() < MAX_BUFFER ==> {
                &&& n == if data@.len() <= MAX_BUFFER - old(self)@.len() {
                    data@.len() as int
                } else {
                    MAX_BUFFER - old(self)@.len()
                }
                &&& final(self)@ == old(self)@ + data@.take(n as int)
            },
            old(self)@.len() >= MAX_BUFFER ==> {
                &&& n == if data@.len() <= MAX_BUFFER {
                    data@.len() as int
                } else {
                    MAX_BUFFER as int
                }
                &&& final(self)@ == data@.take(n as int)
            },
    {
        proof {
            lemma_fill_in_free_space(old(self)@, data@);
        }
        if self.fill >= MAX_BUFFER {
            // Discard the old content and read new data.
            self.fill = 0;
        }
        let room = MAX_BUFFER - self.fill;
        let n = if data.len() <= room {
            data.len()
        } else {
            room
        };
        let ghost base = self@;
        let mut k: usize = 0;
        while k < n
            invariant
                self.buf@.len() == MAX_BUFFER,
                self.fill + n <= MAX_BUFFER,
                n <= data@.len(),
                k <= n,
                base == self.buf@.take(self.fill as int),
                forall|j: int|
                    0 <= j < k ==> self.buf@[self.fill + j] == data@[j],
            decreases n - k,
        {
            self.buf.set(self.fill + k, data[k]);
            k = k + 1;
        }
        self.fill = self.fill + n;
        assert(self@ =~= base + data@.take(n as int));
        n
    }

    /// How many more bytes fit in the buffer.
    pub fn bytes_available(&self) -> (r: usize)
        requires
            self.wf(),
        ensures
            r == MAX_BUFFER - self@.len(),
    {
        self.buf.len() - self.fill
    }

    /// Takes every complete line out of the buffer, in order (see
    /// `split_lines`); the bytes after the last line feed stay.
    pub fn drain_lines(&mut self) -> (lines: Vec<String>)
        requires
            old(self).wf(),
        ensures
            final(self).wf(),
            strings_view(lines@) == split_lines(old(self)@).0,
            final(self)@ == split_lines(old(self)@).1,
            !final(self)@.contains(NEWLINE),
            forall|i: int| 0 <= i < lines@.len() ==> !(#[trigger] lines@[i]@).contains('\n'),
    {
        proof {
            lemma_split_lines_rest(self@);
            lemma_split_lines_no_newline(self@);
        }
        let ghost orig = self@;
        let mut lines: Vec<String> = Vec::new();
        loop
            invariant
                self.wf(),
                strings_view(lines@) + split_lines(self@).0 == split_lines(orig).0,
                split_lines(self@).1 == split_lines(orig).1,
            ensures
                self.wf(),
                strings_view(lines@) == split_lines(orig).0,
                self@ == split_lines(orig).1,
            decreases self.fill,
        {
            let ghost cur = self@;
            if self.fill == 0 {
                assert(first_newline(cur) == 0);
                assert(strings_view(lines@) + Seq::<Seq<char>>::empty() =~= strings_view(lines@));
                break;
            }
            let mut pos: usize = 0;
            while pos < self.fill && self.buf[pos] != NEWLINE
                invariant
                    self.wf(),
                    cur == self@,
                    pos <= self.fill,
                    forall|j: int| 0 <= j < pos ==> cur[j] != NEWLINE,
                decreases self.fill - pos,
            {
                pos = pos + 1;
            }
            proof {
                lemma_newline_at(cur, 0, pos as int);
            }
            if pos == self.fill {
                assert(strings_view(lines@) + Seq::<Seq<char>>::empty() =~= strings_view(lines@));
                break;
            }
            // Real end of the line, without a '\r'.
            let end = if pos > 0 && self.buf[pos - 1] == CARRIAGE_RETURN {
                pos - 1
            } else {
                pos
            };
            let ghost line = cur.take(end as int);
            let ghost lines_before = strings_view(lines@);
            if end > 0 {
                let mut line_bytes: Vec<u8> = Vec::new();
                let mut k: usize = 0;
                while k < end
                    invariant
                        self.wf(),
                        cur == self@,
                        end < self.fill,
                        k <= end,
                        line_bytes@ == cur.take(k as int),
                    decreases end - k,
                {
                    line_bytes.push(self.buf[k]);
                    k = k + 1;
                    assert(line_bytes@ =~= cur.take(k as int));
                }
                match utf8_str(line_bytes.as_slice()) {
                    Some(text) => {
                        proof {
                            encode_utf8_decode_utf8(text@);
                        }
                        lines.push(text.to_owned());
                        assert(strings_view(lines@) =~= lines_before.push(decode_utf8(line)));
                    },
                    None => {},
                }
            }
            proof {
                assert(end == line_end(cur, pos as int));
                let tail = cur.skip(pos + 1);
                if end > 0 && valid_utf8(line) {
                    assert(split_lines(cur).0 == seq![decode_utf8(line)] + split_lines(tail).0);
                    assert(strings_view(lines@) + split_lines(tail).0 =~= lines_before
                        + split_lines(cur).0);
                } else {
                    assert(strings_view(lines@) == lines_before);
                    assert(split_lines(cur).0 == split_lines(tail).0);
                }
            }
            // Move the remaining bytes to the front, without reallocating.
            let rest = self.fill - (pos + 1);
            let ghost tail = cur.skip(pos + 1);
            let mut k: usize = 0;
            while k < rest
                invariant
                    self.buf@.len() == MAX_BUFFER,
                    self.fill <= MAX_BUFFER,
                    rest == self.fill - (pos + 1),
                    k <= rest,
                    tail == cur.skip(pos + 1),
                    cur.len() == self.fill,
                    forall|j: int| 0 <= j < k ==> self.buf@[j] == tail[j],
                    forall|j: int| k <= j < self.fill ==> self.buf@[j] == cur[j],
                decreases rest - k,
            {
                let b = self.buf[pos + 1 + k];
                self.buf.set(k, b);
                k = k + 1;
            }
            self.fill = rest;
            assert(self@ =~= tail);
        }
        proof {
            assert forall|i: int| 0 <= i < lines@.len() implies !(#[trigger] lines@[i]@).contains(
                '\n',
            ) by {
                assert(strings_view(lines@)[i] == lines@[i]@);
            }
        }
        lines
    }
}

} // verus!
