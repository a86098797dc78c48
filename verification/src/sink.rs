use vstd::prelude::*;

verus! {

/// One line surfaced to the output: the originating file identity and the
/// line's text, which the collector treats as opaque.
#[derive(Debug)]
pub struct LineRecord {
    pub source: String,
    pub line: String,
}

/// A model of the output stream: the records emitted so far, in emission
/// order. Each tailing task forwards every line it reads as one `emit`, so a
/// record is one atomic write, and concurrent tasks interleave only at record
/// boundaries.
pub struct Sink {
    records: Vec<LineRecord>,
}

impl View for Sink {
    type V = Seq<(Seq<char>, Seq<char>)>;

    closed spec fn view(&self) -> Seq<(Seq<char>, Seq<char>)> {
        self.records@.map_values(|r: LineRecord| (r.source@, r.line@))
    }
}

/// The lines a stream holds for one source, in the order they were emitted.
pub open spec fn lines_for(s: Seq<(Seq<char>, Seq<char>)>, source: Seq<char>) -> Seq<Seq<char>>
    decreases s.len(),
{
    if s.len() == 0 {
        Seq::empty()
    } else {
        let prior = lines_for(s.drop_last(), source);
        if s.last().0 == source {
            prior.push(s.last().1)
        } else {
            prior
        }
    }
}

impl Sink {
    /// An empty output stream.
    pub fn new() -> (s: Self)
        ensures
            s@ == Seq::<(Seq<char>, Seq<char>)>::empty(),
    {
        let s = Sink { records: Vec::new() };
        proof {
            assert(s@ =~= Seq::<(Seq<char>, Seq<char>)>::empty());
        }
        s
    }

    /// Forward one line to the output: it lands after everything already
    /// emitted, as one atomic record.
    pub fn emit(&mut self, source: String, line: String)
        ensures
            final(self)@ == old(self)@.push((source@, line@)),
    {
        let ghost prior = self@;
        self.records.push(LineRecord { source, line });
        proof {
            assert(self@ =~= prior.push((self.records@.last().source@,
            self.records@.last().line@)));
        }
    }

    /// How many records have been emitted.
    pub fn len(&self) -> (n: usize)
        ensures
            n == self@.len(),
    {
        self.records.len()
    }

    /// The lines emitted for one source, in emission order.
    pub fn lines_for_file(&self, source: &String) -> (r: Vec<String>)
        ensures
            r@.len() == lines_for(self@, source@).len(),
            forall|i: int|
                0 <= i < r@.len() ==> (#[trigger] r@[i])@ == lines_for(self@, source@)[i],
    {
        let mut r: Vec<String> = Vec::new();
        proof {
            assert(r@.map_values(|l: String| l@) =~= lines_for(self@.subrange(0, 0), source@));
        }
        let n = self.records.len();
        let mut i: usize = 0;
        while i < n
            invariant
                i <= n,
                n == self.records@.len(),
                n == self@.len(),
                r@.map_values(|l: String| l@) == lines_for(self@.subrange(0, i as int), source@),
            decreases n - i,
        {
            let ghost pre = self@.subrange(0, i as int);
            let ghost ext = self@.subrange(0, i + 1 as int);
            proof {
                assert(ext.drop_last() =~= pre);
                assert(ext.last() == self@[i as int]);
            }
            if self.records[i].source == *source {
                let ghost prior = r@.map_values(|l: String| l@);
                r.push(self.records[i].line.clone());
                proof {
                    assert(r@.map_values(|l: String| l@) =~= prior.push(self@[i as int].1));
                }
            }
            i = i + 1;
        }
        proof {
            assert(self@.subrange(0, n as int) =~= self@);
            assert forall|k: int| 0 <= k < r@.len() implies (#[trigger] r@[k])@ == lines_for(
                self@,
                source@,
            )[k] by {
                assert(r@.map_values(|l: String| l@)[k] == r@[k]@);
            }
        }
        r
    }
}

/// Emitting a line appends it to its own source's lines and leaves every
/// other source's lines unchanged.
pub proof fn lemma_emit_appends_per_source(
    s: Seq<(Seq<char>, Seq<char>)>,
    source: Seq<char>,
    line: Seq<char>,
    other: Seq<char>,
)
    ensures
        lines_for(s.push((source, line)), source) == lines_for(s, source).push(line),
        other != source ==> lines_for(s.push((source, line)), other) == lines_for(s, other),
{
    assert(s.push((source, line)).drop_last() =~= s);
}

/// Order preservation per file: however the emissions of concurrent tasks
/// interleave, the lines each source contributed appear in the stream in
/// their own emission order — splitting the stream anywhere splits each
/// source's lines accordingly.
pub proof fn lemma_interleaving_preserves_per_source_order(
    s1: Seq<(Seq<char>, Seq<char>)>,
    s2: Seq<(Seq<char>, Seq<char>)>,
    source: Seq<char>,
)
    ensures
        lines_for(s1 + s2, source) == lines_for(s1, source) + lines_for(s2, source),
    decreases s2.len(),
{
    if s2.len() == 0 {
        assert(s1 + s2 =~= s1);
        assert(lines_for(s1, source) + lines_for(s2, source) =~= lines_for(s1, source));
    } else {
        lemma_interleaving_preserves_per_source_order(s1, s2.drop_last(), source);
        assert((s1 + s2).drop_last() =~= s1 + s2.drop_last());
        assert((s1 + s2).last() == s2.last());
        if s2.last().0 == source {
            assert((lines_for(s1, source) + lines_for(s2.drop_last(), source)).push(s2.last().1)
                =~= lines_for(s1, source) + lines_for(s2.drop_last(), source).push(s2.last().1));
        }
    }
}

} // verus!
