use vstd::prelude::*;
use nmea::Nmea;
use crate::line_by_line_iterator::{
    LineByLineIterator, after_fill, lemma_fill_chunks, split_lines, strings_view, MAX_BUFFER,
};
use crate::nmea_parser::{NmeaParser, can_run, can_take, nmea_accepts, nmea_fed};

verus! {

/// The history `h` after the parser is offered `lines` in order: a line is
/// given to it when it can take it, and held back when the parser would
/// panic on it.
pub open spec fn feed_all(h: Seq<Seq<char>>, lines: Seq<Seq<char>>) -> Seq<Seq<char>>
    decreases lines.len(),
{
    if lines.len() == 0 {
        h
    } else {
        let before = feed_all(h, lines.drop_last());
        if can_take(before, lines.last()) {
            before.push(lines.last())
        } else {
            before
        }
    }
}

/// Offering `a` and then `b` is offering `a + b`.
pub proof fn lemma_feed_all_append(h: Seq<Seq<char>>, a: Seq<Seq<char>>, b: Seq<Seq<char>>)
    ensures
        feed_all(feed_all(h, a), b) == feed_all(h, a + b),
    decreases b.len(),
{
    if b.len() == 0 {
        assert(a + b =~= a);
    } else {
        lemma_feed_all_append(h, a, b.drop_last());
        assert((a + b).drop_last() =~= a + b.drop_last());
        assert((a + b).last() == b.last());
    }
}

/// Offering lines only ever extends the history.
pub proof fn lemma_feed_all_extends(h: Seq<Seq<char>>, lines: Seq<Seq<char>>)
    ensures
        feed_all(h, lines).len() >= h.len(),
        feed_all(h, lines).take(h.len() as int) == h,
    decreases lines.len(),
{
    if lines.len() > 0 {
        lemma_feed_all_extends(h, lines.drop_last());
        let before = feed_all(h, lines.drop_last());
        assert(before.push(lines.last()).take(h.len() as int) =~= before.take(h.len() as int));
    } else {
        assert(h.take(h.len() as int) =~= h);
    }
}

/// Handing the module two chunks in turn leaves the parser with the same
/// history (so in the same state) and the buffer with the same bytes as
/// handing it the two as one chunk, whenever everything fits in the line
/// buffer, except where the first chunk leaves it full without a line feed.
pub proof fn lemma_read_chunks(h: Seq<Seq<char>>, s: Seq<u8>, a: Seq<u8>, b: Seq<u8>)
    requires
        s.len() < MAX_BUFFER,
        s.len() + a.len() + b.len() <= MAX_BUFFER,
        split_lines(after_fill(s, a)).1.len() < MAX_BUFFER,
    ensures
        ({
            let x = after_fill(s, a);
            let y = after_fill(split_lines(x).1, b);
            let z = after_fill(s, a + b);
            &&& feed_all(feed_all(h, split_lines(x).0), split_lines(y).0) == feed_all(
                h,
                split_lines(z).0,
            )
            &&& nmea_fed(feed_all(feed_all(h, split_lines(x).0), split_lines(y).0)) == nmea_fed(
                feed_all(h, split_lines(z).0),
            )
            &&& split_lines(y).1 == split_lines(z).1
        }),
{
    lemma_fill_chunks(s, a, b);
    let x = after_fill(s, a);
    let y = after_fill(split_lines(x).1, b);
    lemma_feed_all_append(h, split_lines(x).0, split_lines(y).0);
}

/// Some line of `lines` is accepted by the NMEA parser.
pub open spec fn any_accepted(lines: Seq<Seq<char>>) -> bool {
    exists|i: int| 0 <= i < lines.len() && nmea_accepts(lines[i])
}

/// Outcome of handing one chunk read from the serial port to the module.
#[derive(Debug, Clone, Copy, PartialEq, Eq, Structural)]
pub struct UartReadStep {
    /// Some sentence was accepted in this read cycle so far.
    pub changed: bool,
    /// The port had nothing more to give: the read cycle is over.
    pub finished: bool,
}

impl UartReadStep {
    /// The step after a chunk of `chunk_len` bytes whose complete lines the
    /// parser accepted or refused as `accepted` says, one entry per line:
    /// the cycle has changed something once a line was accepted, and it is
    /// over when the chunk was empty.
    pub fn next(changed_before: bool, accepted: &Vec<bool>, chunk_len: usize) -> (step: Self)
        ensures
            step.changed == (changed_before || exists|j: int|
                0 <= j < accepted@.len() && accepted@[j]),
            step.finished == (chunk_len == 0),
    {
        let mut changed = changed_before;
        let mut i: usize = 0;
        while i < accepted.len()
            invariant
                i <= accepted@.len(),
                changed == (changed_before || exists|j: int| 0 <= j < i && accepted@[j]),
            decreases accepted@.len() - i,
        {
            if accepted[i] {
                changed = true;
            }
            i = i + 1;
        }
        UartReadStep { changed, finished: chunk_len == 0 }
    }
}

/// The GPS front end: assembles serial data into lines and feeds them to
/// the NMEA parser.
pub struct GPSModule {
    nmea_parser: NmeaParser,
    line_iterator: LineByLineIterator,
}

impl View for GPSModule {
    type V = Seq<u8>;

    /// The serial bytes received and not yet part of a complete line.
    closed spec fn view(&self) -> Seq<u8> {
        self.line_iterator@
    }
}

impl GPSModule {
    /// The line buffer and the parser are well formed.
    pub closed spec fn wf(&self) -> bool {
        self.line_iterator.wf() && self.nmea_parser.wf()
    }

    /// The NMEA parser that the module feeds.
    pub closed spec fn parser(&self) -> Nmea {
        self.nmea_parser.state()
    }

    /// The sentences given to the parser so far, in order.
    pub closed spec fn fed(&self) -> Seq<Seq<char>> {
        self.nmea_parser.fed()
    }

    /// A well-formed module's parser is a fresh parser given `fed()`.
    pub proof fn lemma_parser(&self)
        requires
            self.wf(),
        ensures
            self.parser() == nmea_fed(self.fed()),
            can_run(self.fed()),
    {
        self.nmea_parser.lemma_state();
    }

    /// A module with a fresh parser and an empty line buffer.
    pub fn new() -> (m: Self)
        ensures
            m.wf(),
            m@ == Seq::<u8>::empty(),
            m.fed() == Seq::<Seq<char>>::empty(),
            m.parser() == nmea_fed(Seq::empty()),
    {
        Self { nmea_parser: NmeaParser::new(), line_iterator: LineByLineIterator::new() }
    }

    /// How many bytes to read from the serial port for the next step.
    pub fn space_for_next_read(&self) -> (r: usize)
        requires
            self.wf(),
        ensures
            0 < r <= MAX_BUFFER,
            r == if self@.len() >= MAX_BUFFER {
                MAX_BUFFER as int
            } else {
                MAX_BUFFER - self@.len()
            },
    {
        self.line_iterator.space_for_next_fill()
    }

    /// One step of a read cycle: takes the chunk just read from the serial
    /// port (at most `space_for_next_read` bytes), gives every complete line
    /// to the NMEA parser (but a line that would make it panic), and says
    /// whether some sentence was accepted in the cycle so far and whether
    /// the cycle is over (the port gave nothing). The parser ends as a fresh
    /// parser given every sentence it was ever given.
    pub fn read_from_uart(&mut self, chunk: &[u8], changed_before: bool) -> (step: UartReadStep)
        requires
            old(self).wf(),
        ensures
            final(self).wf(),
            ({
                let filled = after_fill(old(self)@, chunk@);
                let lines = split_lines(filled).0;
                &&& final(self)@ == split_lines(filled).1
                &&& final(self).fed() == feed_all(old(self).fed(), lines)
                &&& final(self).parser() == nmea_fed(final(self).fed())
                &&& step.changed == (changed_before || any_accepted(
                    final(self).fed().skip(old(self).fed().len() as int),
                ))
                &&& step.finished == (chunk@.len() == 0)
            }),
    {
        let _ = self.line_iterator.fill_from(chunk);
        let lines = self.line_iterator.drain_lines();
        let ghost lv = strings_view(lines@);
        let ghost rest = self@;
        let ghost fed0 = self.fed();
        let mut accepted: Vec<bool> = Vec::new();
        let mut i: usize = 0;
        while i < lines.len()
            invariant
                i <= lines@.len(),
                lv == strings_view(lines@),
                self.wf(),
                self@ == rest,
                self.fed() == feed_all(fed0, lv.take(i as int)),
                self.fed().len() == fed0.len() + accepted@.len(),
                forall|j: int|
                    0 <= j < accepted@.len() ==> accepted@[j] == nmea_accepts(
                        self.fed()[fed0.len() + j],
                    ),
            decreases lines@.len() - i,
        {
            assert(lv[i as int] == lines@[i as int]@);
            assert(lv.take(i + 1).drop_last() =~= lv.take(i as int));
            assert(lv.take(i + 1).last() == lv[i as int]);
            let text = lines[i].as_str();
            if self.nmea_parser.can_take(text) {
                // Try to parse the line as an NMEA sentence.
                let ok = self.nmea_parser.parse(text);
                accepted.push(ok);
            }
            i = i + 1;
        }
        proof {
            assert(lv.take(lv.len() as int) =~= lv);
            self.nmea_parser.lemma_state();
        }
        let step = UartReadStep::next(changed_before, &accepted, chunk.len());
        proof {
            let added = self.fed().skip(fed0.len() as int);
            assert(added.len() == accepted@.len());
            if step.changed && !changed_before {
                let j = choose|j: int| 0 <= j < accepted@.len() && accepted@[j];
                assert(nmea_accepts(added[j]));
            }
            if any_accepted(added) {
                let j = choose|j: int| 0 <= j < added.len() && nmea_accepts(added[j]);
                assert(accepted@[j]);
            }
        }
        step
    }

    /// The NMEA parser, with everything it has gathered.
    pub fn nmea_parser(&self) -> (p: &Nmea)
        ensures
            *p == self.parser(),
    {
        self.nmea_parser.nmea()
    }
}

/// The last fix is to be published when a burst of sentences has ended: the
/// previous read cycle changed the parser and this one did not.
pub fn burst_ended(changed_before: bool, changed: bool) -> (r: bool)
    ensures
        r == (changed_before && !changed),
{
    changed_before && !changed
}

} // verus!
