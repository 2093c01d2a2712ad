use vstd::prelude::*;
use vstd::string::*;
use vstd::utf8::encode_utf8;
use nmea::Nmea;

verus! {

/// The NMEA parser state of the `nmea` crate; opaque here.
#[verifier::external_type_specification]
#[verifier::external_body]
pub struct ExNmea(Nmea);

/// Whether `Nmea::parse` accepts a sentence: its checksum matches and it is
/// one of the sentence kinds that the parser merges into its state. This
/// depends on the text of the sentence alone.
pub uninterp spec fn nmea_accepts(sentence: Seq<char>) -> bool;

/// The state of a parser made by `Box::<Nmea>::default` after `Nmea::parse`
/// was given the sentences of `history`, in order. `Nmea::parse` depends on
/// the state and the sentence alone.
pub uninterp spec fn nmea_fed(history: Seq<Seq<char>>) -> Nmea;

/// `Box::<Nmea>::default`: a parser that has been given no sentence.
#[verifier::external_body]
fn new_parser() -> (p: Box<Nmea>)
    ensures
        *p == nmea_fed(Seq::empty()),
{
    Box::default()
}

/// `Nmea::parse`: gives one sentence to the parser and tells whether it was
/// accepted (`nmea_accepts`); a sentence with a character outside ASCII is
/// always refused. The new state is that of a parser given one more sentence.
/// The crate panics on two inputs that `can_take` refuses: an active-satellite
/// (GSA) sentence with more than 18 satellite fields (`gsa_too_many`), and a
/// satellite-view (GSV) sentence for a system whose 15-slot buffer is full
/// (`gsv_buffers`). `requires` asks for a history of takeable sentences that
/// led to the current state; the buffers are a function of that state.
#[verifier::external_body]
fn parse_sentence(parser: &mut Box<Nmea>, sentence: &str) -> (ok: bool)
    requires
        exists|h: Seq<Seq<char>>|
            can_run(h) && **old(parser) == nmea_fed(h) && #[trigger] can_take(h, sentence@),
    ensures
        ok == nmea_accepts(sentence@),
        !is_ascii(sentence) ==> !ok,
        forall|h: Seq<Seq<char>>|
            can_run(h) && **old(parser) == nmea_fed(h) && #[trigger] can_take(h, sentence@)
                ==> **final(parser) == nmea_fed(h.push(sentence@)),
{
    parser.parse(sentence).is_ok()
}

/// Index of the first comma in `b` at or after `k`, or `b.len()` when there is none.
pub open spec fn comma_from(b: Seq<u8>, k: int) -> int
    decreases b.len() - k,
{
    if k < 0 || k >= b.len() {
        b.len() as int
    } else if b[k] == 44 {
        k
    } else {
        comma_from(b, k + 1)
    }
}

/// The number written in decimal digits in `b` from `i` on, after the digits
/// `acc` stands for, capped at 15.
pub open spec fn capped_number(b: Seq<u8>, i: int, acc: nat) -> nat
    decreases b.len() - i,
{
    if 0 <= i < b.len() && 48 <= b[i] <= 57 {
        let next = acc * 10 + (b[i] - 48) as nat;
        capped_number(b, i + 1, if next >= 15 { 15 } else { next })
    } else {
        acc
    }
}

/// `b` starts with `$`, a two-letter talker, the sentence kind `k0 k1 k2` and a comma.
pub open spec fn has_header(b: Seq<u8>, k0: u8, k1: u8, k2: u8) -> bool {
    &&& b.len() >= 7
    &&& b[0] == 36
    &&& b[3] == k0
    &&& b[4] == k1
    &&& b[5] == k2
    &&& b[6] == 44
}

/// The satellite system whose buffer a satellite-view (GSV) sentence `b`
/// goes to, by its talker: Beidou (BD, GB), Galileo (GA), GPS (GP),
/// GLONASS (GL), NavIC (GI), QZSS (PQ, QZ); `None` for any other text.
pub open spec fn gsv_system(b: Seq<u8>) -> Option<nat> {
    if !has_header(b, 71, 83, 86) {
        None
    } else if (b[1] == 66 && b[2] == 68) || (b[1] == 71 && b[2] == 66) {
        Some(0)
    } else if b[1] == 71 && b[2] == 65 {
        Some(1)
    } else if b[1] == 71 && b[2] == 80 {
        Some(2)
    } else if b[1] == 71 && b[2] == 76 {
        Some(3)
    } else if b[1] == 71 && b[2] == 73 {
        Some(4)
    } else if (b[1] == 80 && b[2] == 81) || (b[1] == 81 && b[2] == 90) {
        Some(5)
    } else {
        None
    }
}

/// The part number (second field) of a satellite-view sentence, capped at 15.
pub open spec fn gsv_part(b: Seq<u8>) -> nat {
    capped_number(b, comma_from(b, 7) + 1, 0)
}

/// The satellite-view buffers of a parser given `h`, one per system: how many
/// parts each holds and its limit (the highest part number seen), both
/// capped at 15. An accepted GSV sentence adds a part, and the oldest part
/// goes once the buffer holds more than the limit.
pub open spec fn gsv_buffers(h: Seq<Seq<char>>) -> Seq<(nat, nat)>
    decreases h.len(),
{
    if h.len() == 0 {
        Seq::new(6, |i: int| (0nat, 0nat))
    } else {
        let st = gsv_buffers(h.drop_last());
        let s = h.last();
        let b = encode_utf8(s);
        match gsv_system(b) {
            Some(g) => if nmea_accepts(s) {
                let limit = if gsv_part(b) > st[g as int].1 {
                    gsv_part(b)
                } else {
                    st[g as int].1
                };
                let fill = if st[g as int].0 + 1 < limit {
                    st[g as int].0 + 1
                } else {
                    limit
                };
                st.update(g as int, (fill, limit))
            } else {
                st
            },
            None => st,
        }
    }
}

/// End of the digits-only field of `b` that starts at `i`: the index of its
/// comma, or -1 when the field holds something else or has no comma.
pub open spec fn field_end(b: Seq<u8>, i: int) -> int
    decreases b.len() - i,
{
    if i < 0 || i >= b.len() {
        -1
    } else if b[i] == 44 {
        i
    } else if 48 <= b[i] <= 57 {
        field_end(b, i + 1)
    } else {
        -1
    }
}

/// How many digits-only, comma-ended fields follow one another in `b` from `i`.
pub open spec fn prn_run(b: Seq<u8>, i: int) -> nat
    decreases b.len() - i,
{
    let j = field_end(b, i);
    if i <= j < b.len() {
        1 + prn_run(b, j + 1)
    } else {
        0
    }
}

/// Index of the first `*` in `b` at or after `k`, or `b.len()` when there is none.
pub open spec fn star_from(b: Seq<u8>, k: int) -> int
    decreases b.len() - k,
{
    if k < 0 || k >= b.len() {
        b.len() as int
    } else if b[k] == 42 {
        k
    } else {
        star_from(b, k + 1)
    }
}

/// The text from `i` to the first `*` is one or more commas and nothing else.
pub open spec fn comma_tail(b: Seq<u8>, i: int) -> bool {
    let e = star_from(b, i);
    &&& i < e
    &&& forall|j: int| i <= j < e ==> b[j] == 44
}

/// `b` is an active-satellite (GSA) sentence with two valid mode fields and
/// more than 18 satellite fields (empty or digits): the crate's 18-slot list
/// of satellite fields would overflow. Fields are counted whatever their
/// checksum or the size of their number; a number too large for a `u32` would
/// end the crate's list early, so such a sentence is held back too.
pub open spec fn gsa_too_many(b: Seq<u8>) -> bool {
    &&& has_header(b, 71, 83, 65)
    &&& b.len() >= 11
    &&& (b[7] == 77 || b[7] == 65)
    &&& b[8] == 44
    &&& 49 <= b[9] <= 51
    &&& b[10] == 44
    &&& !comma_tail(b, 11)
    &&& prn_run(b, 11) >= 19
}

/// The parser, having been given `h`, can take `sentence` without panicking.
pub open spec fn can_take(h: Seq<Seq<char>>, sentence: Seq<char>) -> bool {
    let b = encode_utf8(sentence);
    &&& !gsa_too_many(b)
    &&& match gsv_system(b) {
        Some(g) => gsv_buffers(h)[g as int].0 < 15,
        None => true,
    }
}

/// Every sentence of `h` could be taken after the ones before it.
pub open spec fn can_run(h: Seq<Seq<char>>) -> bool {
    forall|i: int| 0 <= i < h.len() ==> #[trigger] can_take(h.take(i), h[i])
}

/// The satellite-view buffers never hold more than their limit, nor more than 15.
pub proof fn lemma_gsv_buffers_bounded(h: Seq<Seq<char>>)
    ensures
        gsv_buffers(h).len() == 6,
        forall|g: int|
            0 <= g < 6 ==> #[trigger] gsv_buffers(h)[g].0 <= gsv_buffers(h)[g].1 <= 15,
    decreases h.len(),
{
    if h.len() > 0 {
        lemma_gsv_buffers_bounded(h.drop_last());
        let b = encode_utf8(h.last());
        if gsv_system(b) is Some {
            lemma_capped_number_bounded(b, comma_from(b, 7) + 1, 0);
        }
    }
}

proof fn lemma_capped_number_bounded(b: Seq<u8>, i: int, acc: nat)
    requires
        acc <= 15,
    ensures
        capped_number(b, i, acc) <= 15,
    decreases b.len() - i,
{
    if 0 <= i < b.len() && 48 <= b[i] <= 57 {
        let next = acc * 10 + (b[i] - 48) as nat;
        lemma_capped_number_bounded(b, i + 1, if next >= 15 { 15 } else { next });
    }
}

proof fn lemma_scan_at(b: Seq<u8>, k: int, p: int, c: u8)
    requires
        0 <= k <= p <= b.len(),
        c == 44 || c == 42,
        forall|j: int| k <= j < p ==> b[j] != c,
        p == b.len() || b[p] == c,
    ensures
        c == 44 ==> comma_from(b, k) == p,
        c == 42 ==> star_from(b, k) == p,
    decreases p - k,
{
    if k < p {
        lemma_scan_at(b, k + 1, p, c);
    }
}

/// The part number of a satellite-view sentence `b`, capped at 15.
fn gsv_part_of(b: &[u8]) -> (r: u8)
    requires
        b@.len() >= 7,
    ensures
        r == gsv_part(b@),
        r <= 15,
{
    let mut k: usize = 7;
    while k < b.len() && b[k] != 44
        invariant
            7 <= k <= b@.len(),
            forall|j: int| 7 <= j < k ==> b@[j] != 44,
        decreases b@.len() - k,
    {
        k = k + 1;
    }
    proof {
        lemma_scan_at(b@, 7, k as int, 44);
    }
    if k >= b.len() {
        assert(capped_number(b@, k + 1, 0) == 0);
        return 0;
    }
    let mut i: usize = k + 1;
    let mut acc: u8 = 0;
    while i < b.len() && 48 <= b[i] && b[i] <= 57
        invariant
            k + 1 <= i <= b@.len(),
            acc <= 15,
            capped_number(b@, k + 1, 0) == capped_number(b@, i as int, acc as nat),
        decreases b@.len() - i,
    {
        let d = b[i] - 48;
        let next: u8 = acc * 10 + d;
        acc = if next >= 15 {
            15
        } else {
            next
        };
        i = i + 1;
    }
    proof {
        lemma_capped_number_bounded(b@, i as int, acc as nat);
    }
    acc
}

/// The satellite system of a satellite-view sentence `b` (see `gsv_system`).
fn gsv_system_of(b: &[u8]) -> (r: Option<usize>)
    ensures
        match gsv_system(b@) {
            Some(g) => r == Some(g as usize),
            None => r is None,
        },
{
    if b.len() < 7 || b[0] != 36 || b[3] != 71 || b[4] != 83 || b[5] != 86 || b[6] != 44 {
        return None;
    }
    let (t0, t1) = (b[1], b[2]);
    if (t0 == 66 && t1 == 68) || (t0 == 71 && t1 == 66) {
        Some(0)
    } else if t0 == 71 && t1 == 65 {
        Some(1)
    } else if t0 == 71 && t1 == 80 {
        Some(2)
    } else if t0 == 71 && t1 == 76 {
        Some(3)
    } else if t0 == 71 && t1 == 73 {
        Some(4)
    } else if (t0 == 80 && t1 == 81) || (t0 == 81 && t1 == 90) {
        Some(5)
    } else {
        None
    }
}

/// Whether `b` is an active-satellite sentence that would overflow the
/// parser's list of satellite fields (see `gsa_too_many`).
pub fn gsa_overflows(b: &[u8]) -> (r: bool)
    ensures
        r == gsa_too_many(b@),
{
    if b.len() < 11 || b[0] != 36 || b[3] != 71 || b[4] != 83 || b[5] != 65 || b[6] != 44 {
        return false;
    }
    if !((b[7] == 77 || b[7] == 65) && b[8] == 44 && 49 <= b[9] && b[9] <= 51 && b[10] == 44) {
        return false;
    }
    // The tail up to `*` made of commas alone is an empty satellite list.
    let mut e: usize = 11;
    while e < b.len() && b[e] != 42
        invariant
            11 <= e <= b@.len(),
            forall|j: int| 11 <= j < e ==> b@[j] != 42,
        decreases b@.len() - e,
    {
        e = e + 1;
    }
    proof {
        lemma_scan_at(b@, 11, e as int, 42);
    }
    let mut all_commas = e > 11;
    let mut j: usize = 11;
    while j < e
        invariant
            11 <= j <= e <= b@.len(),
            e == star_from(b@, 11),
            all_commas == (e > 11 && forall|x: int| 11 <= x < j ==> b@[x] == 44),
        decreases e - j,
    {
        if b[j] != 44 {
            all_commas = false;
        }
        j = j + 1;
    }
    if all_commas {
        return false;
    }
    // Count the digits-only, comma-ended fields, up to 19.
    let mut count: u8 = 0;
    let mut i: usize = 11;
    let mut done = false;
    while !done && count < 19
        invariant
            11 <= i <= b@.len(),
            count <= 19,
            !done ==> prn_run(b@, 11) == count + prn_run(b@, i as int),
            done ==> prn_run(b@, 11) == count as nat,
        decreases (if done { 0int } else { 1int }), 19 - count, b@.len() - i,
    {
        let mut k: usize = i;
        while k < b.len() && 48 <= b[k] && b[k] <= 57
            invariant
                i <= k <= b@.len(),
                forall|x: int| i <= x < k ==> 48 <= #[trigger] b@[x] <= 57,
            decreases b@.len() - k,
        {
            k = k + 1;
        }
        proof {
            lemma_field_end_at(b@, i as int, k as int);
        }
        if k < b.len() && b[k] == 44 {
            count = count + 1;
            i = k + 1;
        } else {
            done = true;
        }
    }
    count >= 19
}

proof fn lemma_field_end_at(b: Seq<u8>, i: int, k: int)
    requires
        0 <= i <= k <= b.len(),
        forall|x: int| i <= x < k ==> 48 <= #[trigger] b[x] <= 57,
        k == b.len() || !(48 <= b[k] <= 57),
    ensures
        (k < b.len() && b[k] == 44) ==> field_end(b, i) == k,
        !(k < b.len() && b[k] == 44) ==> field_end(b, i) == -1,
    decreases k - i,
{
    if i < k {
        lemma_field_end_at(b, i + 1, k);
    }
}

/// An NMEA parser together with the sentences it has been given.
pub struct NmeaParser {
    parser: Box<Nmea>,
    fed: Ghost<Seq<Seq<char>>>,
    /// Parts held in each satellite-view buffer (see `gsv_buffers`).
    gsv_fill: Vec<u8>,
    /// Limit of each satellite-view buffer.
    gsv_limit: Vec<u8>,
}

impl NmeaParser {
    /// The sentences given to the parser so far, in order.
    pub closed spec fn fed(&self) -> Seq<Seq<char>> {
        self.fed@
    }

    /// The parser state.
    pub closed spec fn state(&self) -> Nmea {
        *self.parser
    }

    /// The state is that of a fresh parser given `fed()`, every sentence of
    /// which it could take, and the buffer counts match it.
    pub closed spec fn wf(&self) -> bool {
        &&& can_run(self.fed@)
        &&& *self.parser == nmea_fed(self.fed@)
        &&& self.gsv_fill@.len() == 6
        &&& self.gsv_limit@.len() == 6
        &&& forall|g: int|
            0 <= g < 6 ==> #[trigger] self.gsv_fill@[g] == gsv_buffers(self.fed@)[g].0
                && self.gsv_limit@[g] == gsv_buffers(self.fed@)[g].1
    }

    /// A well-formed parser's state is that of a fresh parser given `fed()`.
    pub proof fn lemma_state(&self)
        requires
            self.wf(),
        ensures
            self.state() == nmea_fed(self.fed()),
            can_run(self.fed()),
    {
    }

    /// A parser that has been given nothing.
    pub fn new() -> (p: Self)
        ensures
            p.wf(),
            p.fed() == Seq::<Seq<char>>::empty(),
            p.state() == nmea_fed(Seq::empty()),
    {
        let p = NmeaParser {
            parser: new_parser(),
            fed: Ghost(Seq::empty()),
            gsv_fill: vec![0u8; 6],
            gsv_limit: vec![0u8; 6],
        };
        assert(can_run(p.fed@));
        p
    }

    /// Whether the parser can take `sentence` without panicking.
    pub fn can_take(&self, sentence: &str) -> (r: bool)
        requires
            self.wf(),
        ensures
            r == can_take(self.fed(), sentence@),
    {
        let b = sentence.as_bytes();
        if gsa_overflows(b) {
            return false;
        }
        proof {
            lemma_gsv_buffers_bounded(self.fed@);
        }
        match gsv_system_of(b) {
            Some(g) => self.gsv_fill[g] < 15,
            None => true,
        }
    }

    /// Gives the parser one sentence that it can take; true when it is accepted.
    pub fn parse(&mut self, sentence: &str) -> (ok: bool)
        requires
            old(self).wf(),
            can_take(old(self).fed(), sentence@),
        ensures
            final(self).wf(),
            ok == nmea_accepts(sentence@),
            final(self).fed() == old(self).fed().push(sentence@),
            final(self).state() == nmea_fed(final(self).fed()),
    {
        let ghost h = self.fed@;
        let ghost h2 = h.push(sentence@);
        let ok = parse_sentence(&mut self.parser, sentence);
        let b = sentence.as_bytes();
        proof {
            lemma_gsv_buffers_bounded(h);
            lemma_gsv_buffers_bounded(h2);
            assert(h2.drop_last() =~= h);
            assert(h2.last() == sentence@);
        }
        if ok {
            match gsv_system_of(b) {
                Some(g) => {
                    let part = gsv_part_of(b);
                    let old_limit = self.gsv_limit[g];
                    let limit = if part > old_limit {
                        part
                    } else {
                        old_limit
                    };
                    let old_fill = self.gsv_fill[g];
                    let fill = if old_fill + 1 < limit {
                        old_fill + 1
                    } else {
                        limit
                    };
                    self.gsv_fill.set(g, fill);
                    self.gsv_limit.set(g, limit);
                },
                None => {},
            }
        }
        self.fed = Ghost(h2);
        proof {
            assert(b@ == encode_utf8(sentence@));
            assert(*self.parser == nmea_fed(h2));
            assert forall|g: int| 0 <= g < 6 implies #[trigger] self.gsv_fill@[g] == gsv_buffers(
                h2,
            )[g].0 && self.gsv_limit@[g] == gsv_buffers(h2)[g].1 by {
                assert(self.gsv_fill@.len() == 6);
            }
            assert forall|i: int| 0 <= i < h2.len() implies #[trigger] can_take(
                h2.take(i),
                h2[i],
            ) by {
                if i < h.len() {
                    assert(h2.take(i) =~= h.take(i));
                    assert(can_take(h.take(i), h[i]));
                } else {
                    assert(h2.take(i) =~= h);
                }
            }
        }
        ok
    }

    /// The parser state, with everything it has gathered.
    pub fn nmea(&self) -> (p: &Nmea)
        ensures
            *p == self.state(),
    {
        &self.parser
    }
}

} // verus!
