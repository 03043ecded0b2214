//! The line-oriented text format shared by trajectory and observation files.
//!
//! A record is one line: a time stamp followed by the components of a state
//! vector, the fields separated by single spaces and the line ended by a
//! newline.  Reading splits a line (without its newline) at every space, so
//! that two adjacent spaces give an empty field.  The numbers themselves are
//! written and parsed by the caller; this module only frames the fields.
use vstd::prelude::*;

verus! {

/// The byte that separates the fields of a line (an ASCII space).
pub const FIELD_SEPARATOR: u8 = 32u8;

/// The byte that ends a record (an ASCII line feed).
pub const LINE_END: u8 = 10u8;

/// The fields of `s`, cut at every separator, read from left to right.
pub open spec fn split_spec(s: Seq<u8>) -> Seq<Seq<u8>>
    decreases s.len(),
{
    if s.len() == 0 {
        seq![Seq::<u8>::empty()]
    } else {
        let prev = split_spec(s.drop_last());
        if s.last() == FIELD_SEPARATOR {
            prev.push(Seq::<u8>::empty())
        } else {
            prev.update(prev.len() - 1, prev.last().push(s.last()))
        }
    }
}

/// The fields joined by single separators.
pub open spec fn join_spec(fields: Seq<Seq<u8>>) -> Seq<u8>
    decreases fields.len(),
{
    if fields.len() == 0 {
        Seq::<u8>::empty()
    } else if fields.len() == 1 {
        fields[0]
    } else {
        join_spec(fields.drop_last()) + seq![FIELD_SEPARATOR] + fields.last()
    }
}

/// A field that holds neither a separator nor a line end.
pub open spec fn plain_field(f: Seq<u8>) -> bool {
    forall|i: int| 0 <= i < f.len() ==> #[trigger] f[i] != FIELD_SEPARATOR && f[i] != LINE_END
}

/// The bytes of one record: the time stamp, then each value after a
/// separator, then a line end.
pub open spec fn record_spec(time: Seq<u8>, values: Seq<Seq<u8>>) -> Seq<u8> {
    join_spec(seq![time] + values).push(LINE_END)
}

/// The views of a vector of byte vectors.
pub open spec fn fields_view(v: Seq<Vec<u8>>) -> Seq<Seq<u8>> {
    v.map_values(|f: Vec<u8>| f@)
}

/// Splitting always yields at least one field.
pub proof fn lemma_split_nonempty(s: Seq<u8>)
    ensures
        split_spec(s).len() >= 1,
    decreases s.len(),
{
    if s.len() > 0 {
        lemma_split_nonempty(s.drop_last());
    }
}

/// Appending bytes that hold no separator extends the last field.
proof fn lemma_split_append_plain(a: Seq<u8>, g: Seq<u8>)
    requires
        forall|i: int| 0 <= i < g.len() ==> #[trigger] g[i] != FIELD_SEPARATOR,
    ensures
        split_spec(a + g) == split_spec(a).update(
            split_spec(a).len() - 1,
            split_spec(a).last() + g,
        ),
    decreases g.len(),
{
    lemma_split_nonempty(a);
    if g.len() == 0 {
        assert(a + g =~= a);
        assert(split_spec(a).last() + g =~= split_spec(a).last());
        assert(split_spec(a).update(split_spec(a).len() - 1, split_spec(a).last())
            =~= split_spec(a));
    } else {
        let g0 = g.drop_last();
        lemma_split_append_plain(a, g0);
        assert((a + g).drop_last() =~= a + g0);
        assert((a + g).last() == g.last());
        let prev = split_spec(a + g0);
        let sa = split_spec(a);
        assert(prev.len() == sa.len());
        assert(prev.last() == sa.last() + g0);
        assert(prev.last().push(g.last()) =~= sa.last() + g);
        assert(split_spec(a).last() + g0 + seq![g.last()] =~= split_spec(a).last() + g);
        assert(prev.update(prev.len() - 1, prev.last().push(g.last())) =~= split_spec(a).update(
            split_spec(a).len() - 1,
            split_spec(a).last() + g,
        ));
    }
}

/// A separator followed by a plain field adds that field.
proof fn lemma_split_append_field(a: Seq<u8>, g: Seq<u8>)
    requires
        plain_field(g),
    ensures
        split_spec(a + seq![FIELD_SEPARATOR] + g) == split_spec(a).push(g),
{
    let b = a + seq![FIELD_SEPARATOR];
    assert forall|i: int| 0 <= i < g.len() implies #[trigger] g[i] != FIELD_SEPARATOR by {
        assert(plain_field(g));
    }
    lemma_split_append_plain(b, g);
    assert(b.drop_last() =~= a);
    assert(split_spec(b) == split_spec(a).push(Seq::<u8>::empty()));
    assert(Seq::<u8>::empty() + g =~= g);
    assert(split_spec(a).push(Seq::<u8>::empty()).update(split_spec(a).len() as int, g)
        =~= split_spec(a).push(g));
}

/// Reading back what was joined gives the same fields, provided none of
/// them holds a separator.
pub proof fn lemma_split_join(fields: Seq<Seq<u8>>)
    requires
        fields.len() >= 1,
        forall|i: int| 0 <= i < fields.len() ==> plain_field(#[trigger] fields[i]),
    ensures
        split_spec(join_spec(fields)) == fields,
    decreases fields.len(),
{
    if fields.len() == 1 {
        let f = fields[0];
        assert(plain_field(fields[0]));
        assert forall|i: int| 0 <= i < f.len() implies #[trigger] f[i] != FIELD_SEPARATOR by {}
        lemma_split_append_plain(Seq::<u8>::empty(), f);
        assert(Seq::<u8>::empty() + f =~= f);
        assert(split_spec(Seq::<u8>::empty()) == seq![Seq::<u8>::empty()]);
        assert(Seq::<u8>::empty() + f =~= f);
        assert(seq![Seq::<u8>::empty()].update(0, f) =~= fields);
    } else {
        let init = fields.drop_last();
        assert forall|i: int| 0 <= i < init.len() implies plain_field(#[trigger] init[i]) by {
            assert(init[i] == fields[i]);
        }
        lemma_split_join(init);
        assert(plain_field(fields[fields.len() - 1]));
        lemma_split_append_field(join_spec(init), fields.last());
        assert(init.push(fields.last()) =~= fields);
    }
}

/// Appending a byte that is not a separator to the last field appends it
/// to the joined bytes.
proof fn lemma_join_extend_last(fields: Seq<Seq<u8>>, c: u8)
    requires
        fields.len() >= 1,
    ensures
        join_spec(fields.update(fields.len() - 1, fields.last().push(c))) == join_spec(
            fields,
        ).push(c),
{
    let g = fields.update(fields.len() - 1, fields.last().push(c));
    if fields.len() == 1 {
        assert(g[0] == fields[0].push(c));
    } else {
        assert(g.drop_last() =~= fields.drop_last());
        assert(g.last() == fields.last().push(c));
        assert(join_spec(fields.drop_last()) + seq![FIELD_SEPARATOR] + fields.last().push(c)
            =~= (join_spec(fields.drop_last()) + seq![FIELD_SEPARATOR] + fields.last()).push(c));
    }
}

/// Splitting cuts a line into fields that hold no separator and that,
/// joined again by single separators, give back the line: the fields are
/// exactly the pieces between consecutive separators.
pub proof fn lemma_join_split(s: Seq<u8>)
    ensures
        join_spec(split_spec(s)) == s,
        forall|i: int, j: int|
            0 <= i < split_spec(s).len() && 0 <= j < split_spec(s)[i].len() ==> #[trigger] split_spec(
                s,
            )[i][j] != FIELD_SEPARATOR,
    decreases s.len(),
{
    if s.len() == 0 {
        assert(split_spec(s) =~= seq![Seq::<u8>::empty()]);
    } else {
        let s0 = s.drop_last();
        let prev = split_spec(s0);
        lemma_join_split(s0);
        lemma_split_nonempty(s0);
        assert(s0.push(s.last()) =~= s);
        if s.last() == FIELD_SEPARATOR {
            let cur = prev.push(Seq::<u8>::empty());
            assert(cur.drop_last() =~= prev);
            assert(join_spec(prev) + seq![FIELD_SEPARATOR] + Seq::<u8>::empty() =~= s);
            assert forall|i: int, j: int|
                0 <= i < cur.len() && 0 <= j < cur[i].len() implies #[trigger] cur[i][j]
                != FIELD_SEPARATOR by {
                assert(cur[i] == prev[i]);
            }
        } else {
            let cur = prev.update(prev.len() - 1, prev.last().push(s.last()));
            lemma_join_extend_last(prev, s.last());
            assert forall|i: int, j: int|
                0 <= i < cur.len() && 0 <= j < cur[i].len() implies #[trigger] cur[i][j]
                != FIELD_SEPARATOR by {
                if i == prev.len() - 1 && j == prev.last().len() {
                } else {
                    assert(cur[i][j] == prev[i][j]);
                }
            }
        }
    }
}

/// What a record reads back as: the line without its line end splits into
/// the time stamp followed by the values, whenever no field holds a
/// separator or a line end.
pub proof fn lemma_record_round_trip(time: Seq<u8>, values: Seq<Seq<u8>>)
    requires
        plain_field(time),
        forall|i: int| 0 <= i < values.len() ==> plain_field(#[trigger] values[i]),
    ensures
        record_spec(time, values).last() == LINE_END,
        split_spec(record_spec(time, values).drop_last()) == seq![time] + values,
{
    let fields = seq![time] + values;
    assert forall|i: int| 0 <= i < fields.len() implies plain_field(#[trigger] fields[i]) by {
        if i > 0 {
            assert(fields[i] == values[i - 1]);
        }
    }
    lemma_split_join(fields);
    assert(record_spec(time, values).drop_last() =~= join_spec(fields));
}

/// Appends the bytes of `src` to `out`.
fn append_bytes(out: &mut Vec<u8>, src: &[u8])
    ensures
        final(out)@ == old(out)@ + src@,
{
    let ghost start = out@;
    let mut i: usize = 0;
    while i < src.len()
        invariant
            i <= src.len(),
            out@ == start + src@.take(i as int),
        decreases src.len() - i,
    {
        out.push(src[i]);
        i = i + 1;
        assert(start + src@.take(i as int) =~= (start + src@.take(i - 1)).push(src@[i - 1]));
    }
    assert(src@.take(src.len() as int) =~= src@);
}

/// Splits a line (without its line end) at every separator, as
/// `str::split(' ')` does: the result always has at least one field, and
/// adjacent separators give empty fields.
pub fn split_fields(line: &[u8]) -> (fields: Vec<Vec<u8>>)
    ensures
        fields_view(fields@) == split_spec(line@),
        fields@.len() >= 1,
{
    let mut fields: Vec<Vec<u8>> = Vec::new();
    let mut current: Vec<u8> = Vec::new();
    let mut i: usize = 0;
    assert(line@.take(0) =~= Seq::<u8>::empty());
    assert(fields_view(fields@).push(current@) =~= seq![Seq::<u8>::empty()]);
    while i < line.len()
        invariant
            i <= line.len(),
            fields_view(fields@).push(current@) == split_spec(line@.take(i as int)),
        decreases line.len() - i,
    {
        let b = line[i];
        let ghost before = line@.take(i as int);
        let ghost prev = split_spec(before);
        assert(line@.take(i + 1).drop_last() =~= before);
        assert(line@.take(i + 1).last() == b);
        if b == FIELD_SEPARATOR {
            let ghost fv = fields_view(fields@);
            let ghost cur_v = current@;
            fields.push(current);
            current = Vec::new();
            assert(fields_view(fields@) =~= fv.push(cur_v));
            assert(fields_view(fields@).push(current@) =~= prev.push(Seq::<u8>::empty()));
        } else {
            current.push(b);
            assert(prev.len() == fields_view(fields@).len() + 1);
            assert(fields_view(fields@).push(current@) =~= prev.update(
                prev.len() - 1,
                prev.last().push(b),
            ));
        }
        i = i + 1;
    }
    fields.push(current);
    assert(line@.take(line.len() as int) =~= line@);
    assert(fields_view(fields@).len() >= 1);
    fields
}

/// One record read back from a line: its time stamp and its values, both
/// still as text.
#[derive(Debug)]
pub struct Record {
    pub time: Vec<u8>,
    pub values: Vec<Vec<u8>>,
}

/// Frames one record: the time stamp, each value after a separator, and a
/// line end.
pub fn format_record(time: &[u8], values: &Vec<Vec<u8>>) -> (line: Vec<u8>)
    ensures
        line@ == record_spec(time@, fields_view(values@)),
        line@.last() == LINE_END,
        line@.drop_last() == join_spec(seq![time@] + fields_view(values@)),
        plain_field(time@) && (forall|i: int|
            0 <= i < values@.len() ==> plain_field(#[trigger] values@[i]@)) ==> split_spec(
            line@.drop_last(),
        ) == seq![time@] + fields_view(values@),
{
    let ghost vs = fields_view(values@);
    let mut line: Vec<u8> = Vec::new();
    append_bytes(&mut line, time);
    assert(line@ =~= time@);
    assert(seq![time@] + vs.take(0) =~= seq![time@]);
    let mut j: usize = 0;
    while j < values.len()
        invariant
            j <= values.len(),
            vs == fields_view(values@),
            line@ == join_spec(seq![time@] + vs.take(j as int)),
        decreases values.len() - j,
    {
        let ghost before = line@;
        line.push(FIELD_SEPARATOR);
        append_bytes(&mut line, values[j].as_slice());
        let ghost next = seq![time@] + vs.take(j + 1);
        assert(next.drop_last() =~= seq![time@] + vs.take(j as int));
        assert(next.last() == values@[j as int]@);
        assert(line@ =~= before + seq![FIELD_SEPARATOR] + values@[j as int]@);
        j = j + 1;
    }
    assert(vs.take(values.len() as int) =~= vs);
    line.push(LINE_END);
    proof {
        assert(line@.drop_last() =~= join_spec(seq![time@] + vs));
        if plain_field(time@) && (forall|i: int|
            0 <= i < values@.len() ==> plain_field(#[trigger] values@[i]@)) {
            assert forall|i: int| 0 <= i < vs.len() implies plain_field(#[trigger] vs[i]) by {
                assert(vs[i] == values@[i]@);
            }
            lemma_record_round_trip(time@, vs);
        }
    }
    line
}

/// Reads one record from a line without its line end: the first field is
/// the time stamp, the others are the values.
pub fn parse_record(line: &[u8]) -> (r: Record)
    ensures
        r.time@ == split_spec(line@)[0],
        fields_view(r.values@) == split_spec(line@).drop_first(),
{
    let mut fields = split_fields(line);
    let time = fields.remove(0);
    assert(fields_view(fields@) =~= split_spec(line@).drop_first());
    Record { time, values: fields }
}

/// The keyword of the line that gives the span between observations
/// (`time_span` in ASCII).
pub open spec fn time_span_keyword() -> Seq<u8> {
    seq![116u8, 105u8, 109u8, 101u8, 95u8, 115u8, 112u8, 97u8, 110u8]
}

/// The keyword of the line that gives the length of the simulated time
/// (`simulation_time` in ASCII).
pub open spec fn simulation_time_keyword() -> Seq<u8> {
    seq![
        115u8, 105u8, 109u8, 117u8, 108u8, 97u8, 116u8, 105u8, 111u8, 110u8, 95u8, 116u8, 105u8, 109u8, 101u8,
    ]
}

/// One line of an observation file.
#[derive(Debug)]
pub enum ObservationLine {
    /// `time_span <value>`: the span between two observations.
    TimeSpan(Vec<u8>),
    /// `simulation_time <value>`: the length of the simulated time.
    SimulationTime(Vec<u8>),
    /// `<time> <value>...`: one observation.
    Datum(Record),
}

/// Why a line of an observation file cannot be read.
#[derive(Clone, Copy, Debug, PartialEq, Eq, Structural)]
pub enum LineError {
    /// A keyword line has no value after its keyword.
    MissingValue,
}

/// The meaning of a line of an observation file, over byte sequences.
pub enum ObservationLineModel {
    TimeSpan(Seq<u8>),
    SimulationTime(Seq<u8>),
    Datum(Seq<u8>, Seq<Seq<u8>>),
}

impl View for ObservationLine {
    type V = ObservationLineModel;

    open spec fn view(&self) -> ObservationLineModel {
        match self {
            ObservationLine::TimeSpan(v) => ObservationLineModel::TimeSpan(v@),
            ObservationLine::SimulationTime(v) => ObservationLineModel::SimulationTime(v@),
            ObservationLine::Datum(r) => ObservationLineModel::Datum(
                r.time@,
                fields_view(r.values@),
            ),
        }
    }
}

/// What a line of an observation file means, given its fields: a keyword
/// line needs a second field, its value; any other line is a datum whose
/// first field is the time stamp.
pub open spec fn observation_line_spec(fields: Seq<Seq<u8>>) -> Result<
    ObservationLineModel,
    LineError,
> {
    if fields[0] == time_span_keyword() || fields[0] == simulation_time_keyword() {
        if fields.len() < 2 {
            Err(LineError::MissingValue)
        } else if fields[0] == time_span_keyword() {
            Ok(ObservationLineModel::TimeSpan(fields[1]))
        } else {
            Ok(ObservationLineModel::SimulationTime(fields[1]))
        }
    } else {
        Ok(ObservationLineModel::Datum(fields[0], fields.drop_first()))
    }
}

/// Whether `f` holds the same bytes as `kw`.
fn bytes_equal(f: &Vec<u8>, kw: &[u8]) -> (b: bool)
    ensures
        b == (f@ == kw@),
{
    if f.len() != kw.len() {
        return false;
    }
    let mut i: usize = 0;
    while i < f.len()
        invariant
            i <= f.len(),
            f.len() == kw.len(),
            forall|j: int| 0 <= j < i ==> f@[j] == kw@[j],
        decreases f.len() - i,
    {
        if f[i] != kw[i] {
            return false;
        }
        i = i + 1;
    }
    assert(f@ =~= kw@);
    true
}

/// Reads one line (without its line end) of an observation file: a
/// `time_span` or `simulation_time` keyword followed by its value, or else
/// an observation made of a time stamp and values.  Fields after the value
/// of a keyword line are ignored.
pub fn parse_observation_line(line: &[u8]) -> (r: Result<ObservationLine, LineError>)
    ensures
        match r {
            Ok(l) => observation_line_spec(split_spec(line@)) == Ok::<
                ObservationLineModel,
                LineError,
            >(l@),
            Err(e) => observation_line_spec(split_spec(line@)) == Err::<
                ObservationLineModel,
                LineError,
            >(e),
        },
        split_spec(line@)[0] == time_span_keyword() && split_spec(line@).len() >= 2 ==> (r matches Ok(
            ObservationLine::TimeSpan(v),
        ) && v@ == split_spec(line@)[1]),
        split_spec(line@)[0] == simulation_time_keyword() && split_spec(line@).len() >= 2 ==> (
        r matches Ok(ObservationLine::SimulationTime(v)) && v@ == split_spec(line@)[1]),
        (split_spec(line@)[0] == time_span_keyword() || split_spec(line@)[0]
            == simulation_time_keyword()) && split_spec(line@).len() < 2 ==> r == Err::<
            ObservationLine,
            LineError,
        >(LineError::MissingValue),
        split_spec(line@)[0] != time_span_keyword() && split_spec(line@)[0]
            != simulation_time_keyword() ==> (r matches Ok(ObservationLine::Datum(rec))
            && rec.time@ == split_spec(line@)[0] && rec.values@.len() + 1 == split_spec(
            line@,
        ).len() && forall|i: int|
            0 <= i < rec.values@.len() ==> #[trigger] rec.values@[i]@ == split_spec(line@)[i
                + 1]),
{
    let mut fields = split_fields(line);
    let ghost all = split_spec(line@);
    let span_kw: [u8; 9] = [116u8, 105u8, 109u8, 101u8, 95u8, 115u8, 112u8, 97u8, 110u8];
    let sim_kw: [u8; 15] = [
        115u8, 105u8, 109u8, 117u8, 108u8, 97u8, 116u8, 105u8, 111u8, 110u8, 95u8, 116u8, 105u8, 109u8, 101u8,
    ];
    assert(span_kw@ =~= time_span_keyword());
    assert(sim_kw@ =~= simulation_time_keyword());
    let is_span = bytes_equal(&fields[0], &span_kw);
    let is_sim = bytes_equal(&fields[0], &sim_kw);
    assert(fields@[0]@ == all[0]);
    if is_span || is_sim {
        if fields.len() < 2 {
            return Err(LineError::MissingValue);
        }
        let value = fields.remove(1);
        assert(value@ == all[1]);
        if is_span {
            Ok(ObservationLine::TimeSpan(value))
        } else {
            Ok(ObservationLine::SimulationTime(value))
        }
    } else {
        let time = fields.remove(0);
        assert(fields_view(fields@) =~= all.drop_first());
        Ok(ObservationLine::Datum(Record { time, values: fields }))
    }
}

/// The bytes of an observation line: a keyword line is the keyword and its
/// value as a record, a datum is its time stamp and values as a record.
pub open spec fn observation_line_bytes(l: ObservationLineModel) -> Seq<u8> {
    match l {
        ObservationLineModel::TimeSpan(v) => record_spec(time_span_keyword(), seq![v]),
        ObservationLineModel::SimulationTime(v) => record_spec(simulation_time_keyword(), seq![v]),
        ObservationLineModel::Datum(t, xs) => record_spec(t, xs),
    }
}

/// Writes one line of an observation file, line end included.
pub fn format_observation_line(l: &ObservationLine) -> (line: Vec<u8>)
    ensures
        line@ == observation_line_bytes(l@),
        line@.last() == LINE_END,
        match l {
            ObservationLine::TimeSpan(v) => {
                &&& line@.drop_last() == time_span_keyword() + seq![FIELD_SEPARATOR] + v@
                &&& plain_field(v@) ==> split_spec(line@.drop_last()) == seq![
                    time_span_keyword(),
                    v@,
                ]
            },
            ObservationLine::SimulationTime(v) => {
                &&& line@.drop_last() == simulation_time_keyword() + seq![FIELD_SEPARATOR] + v@
                &&& plain_field(v@) ==> split_spec(line@.drop_last()) == seq![
                    simulation_time_keyword(),
                    v@,
                ]
            },
            ObservationLine::Datum(r) => {
                &&& line@.drop_last() == join_spec(seq![r.time@] + fields_view(r.values@))
                &&& plain_field(r.time@) && (forall|i: int|
                    0 <= i < r.values@.len() ==> plain_field(#[trigger] r.values@[i]@))
                    ==> split_spec(line@.drop_last()) == seq![r.time@] + fields_view(r.values@)
            },
        },
{
    let span_kw: [u8; 9] = [116u8, 105u8, 109u8, 101u8, 95u8, 115u8, 112u8, 97u8, 110u8];
    let sim_kw: [u8; 15] = [
        115u8, 105u8, 109u8, 117u8, 108u8, 97u8, 116u8, 105u8, 111u8, 110u8, 95u8, 116u8, 105u8, 109u8, 101u8,
    ];
    assert(span_kw@ =~= time_span_keyword());
    assert(sim_kw@ =~= simulation_time_keyword());
    proof {
        lemma_keywords_plain();
    }
    match l {
        ObservationLine::TimeSpan(v) => {
            let mut values: Vec<Vec<u8>> = Vec::new();
            values.push(v.clone());
            assert(fields_view(values@) =~= seq![v@]);
            let line = format_record(span_kw.as_slice(), &values);
            proof {
                lemma_join_pair(time_span_keyword(), v@);
                assert(values@[0]@ == v@);
            }
            line
        },
        ObservationLine::SimulationTime(v) => {
            let mut values: Vec<Vec<u8>> = Vec::new();
            values.push(v.clone());
            assert(fields_view(values@) =~= seq![v@]);
            let line = format_record(sim_kw.as_slice(), &values);
            proof {
                lemma_join_pair(simulation_time_keyword(), v@);
                assert(values@[0]@ == v@);
            }
            line
        },
        ObservationLine::Datum(r) => format_record(r.time.as_slice(), &r.values),
    }
}

/// Neither keyword holds a separator or a line end.
proof fn lemma_keywords_plain()
    ensures
        plain_field(time_span_keyword()),
        plain_field(simulation_time_keyword()),
{
    let span = time_span_keyword();
    let sim = simulation_time_keyword();
    assert forall|i: int| 0 <= i < span.len() implies #[trigger] span[i] != FIELD_SEPARATOR
        && span[i] != LINE_END by {}
    assert forall|i: int| 0 <= i < sim.len() implies #[trigger] sim[i] != FIELD_SEPARATOR
        && sim[i] != LINE_END by {}
}

/// Two fields joined: the first, a separator, the second.
proof fn lemma_join_pair(a: Seq<u8>, b: Seq<u8>)
    ensures
        join_spec(seq![a] + seq![b]) == a + seq![FIELD_SEPARATOR] + b,
{
    let f = seq![a] + seq![b];
    assert(f.len() == 2);
    assert(f.drop_last() =~= seq![a]);
    assert(f.last() == b);
    assert(join_spec(seq![a]) == a);
    assert(join_spec(f) == join_spec(f.drop_last()) + seq![FIELD_SEPARATOR] + f.last());
}

/// A model line whose fields hold no separator or line end, and whose time
/// stamp, if it is a datum, is not one of the keywords.
pub open spec fn writable_observation(l: ObservationLineModel) -> bool {
    match l {
        ObservationLineModel::TimeSpan(v) => plain_field(v),
        ObservationLineModel::SimulationTime(v) => plain_field(v),
        ObservationLineModel::Datum(t, xs) => {
            &&& plain_field(t)
            &&& forall|i: int| 0 <= i < xs.len() ==> plain_field(#[trigger] xs[i])
            &&& t != time_span_keyword()
            &&& t != simulation_time_keyword()
        },
    }
}

/// Reading back a written observation line gives the same line: the
/// writer of observation files and their reader agree.
pub proof fn lemma_observation_round_trip(l: ObservationLineModel)
    requires
        writable_observation(l),
    ensures
        observation_line_bytes(l).last() == LINE_END,
        observation_line_spec(split_spec(observation_line_bytes(l).drop_last())) == Ok::<
            ObservationLineModel,
            LineError,
        >(l),
{
    let span = time_span_keyword();
    let sim = simulation_time_keyword();
    assert forall|i: int| 0 <= i < span.len() implies #[trigger] span[i] != FIELD_SEPARATOR
        && span[i] != LINE_END by {}
    assert forall|i: int| 0 <= i < sim.len() implies #[trigger] sim[i] != FIELD_SEPARATOR
        && sim[i] != LINE_END by {}
    assert(span != sim) by {
        assert(span.len() != sim.len());
    }
    match l {
        ObservationLineModel::TimeSpan(v) => {
            lemma_record_round_trip(span, seq![v]);
            assert(seq![span] + seq![v] =~= seq![span, v]);
        },
        ObservationLineModel::SimulationTime(v) => {
            lemma_record_round_trip(sim, seq![v]);
            assert(seq![sim] + seq![v] =~= seq![sim, v]);
        },
        ObservationLineModel::Datum(t, xs) => {
            lemma_record_round_trip(t, xs);
            assert((seq![t] + xs).drop_first() =~= xs);
        },
    }
}

/// How a line of an observation file is read, in terms of its fields: a
/// `time_span` line with a value sets the span to that value, a
/// `simulation_time` line with a value sets the simulated time to it, a
/// keyword line without a value is refused, and any other line is an
/// observation whose values are the fields after the time stamp, in order.
pub proof fn lemma_observation_line_meaning(fields: Seq<Seq<u8>>)
    requires
        fields.len() >= 1,
    ensures
        fields[0] == time_span_keyword() && fields.len() >= 2 ==> observation_line_spec(fields)
            == Ok::<ObservationLineModel, LineError>(ObservationLineModel::TimeSpan(fields[1])),
        fields[0] == simulation_time_keyword() && fields.len() >= 2 ==> observation_line_spec(
            fields,
        ) == Ok::<ObservationLineModel, LineError>(
            ObservationLineModel::SimulationTime(fields[1]),
        ),
        (fields[0] == time_span_keyword() || fields[0] == simulation_time_keyword())
            && fields.len() < 2 ==> observation_line_spec(fields) == Err::<
            ObservationLineModel,
            LineError,
        >(LineError::MissingValue),
        fields[0] != time_span_keyword() && fields[0] != simulation_time_keyword() ==> (
        observation_line_spec(fields) matches Ok(ObservationLineModel::Datum(t, xs)) && t
            == fields[0] && xs.len() + 1 == fields.len() && forall|i: int|
            0 <= i < xs.len() ==> #[trigger] xs[i] == fields[i + 1]),
{
    assert(time_span_keyword() != simulation_time_keyword()) by {
        assert(time_span_keyword().len() != simulation_time_keyword().len());
    }
}

/// The bytes written for each kind of observation line: the keyword, a
/// separator and the value, or the time stamp and the values joined by
/// single separators; then one line end.
pub proof fn lemma_observation_line_bytes(l: ObservationLineModel)
    ensures
        observation_line_bytes(l).last() == LINE_END,
        match l {
            ObservationLineModel::TimeSpan(v) => observation_line_bytes(l).drop_last()
                == time_span_keyword() + seq![FIELD_SEPARATOR] + v,
            ObservationLineModel::SimulationTime(v) => observation_line_bytes(l).drop_last()
                == simulation_time_keyword() + seq![FIELD_SEPARATOR] + v,
            ObservationLineModel::Datum(t, xs) => observation_line_bytes(l).drop_last()
                == join_spec(seq![t] + xs),
        },
{
    match l {
        ObservationLineModel::TimeSpan(v) => {
            lemma_join_pair(time_span_keyword(), v);
            assert(observation_line_bytes(l).drop_last() =~= join_spec(
                seq![time_span_keyword()] + seq![v],
            ));
        },
        ObservationLineModel::SimulationTime(v) => {
            lemma_join_pair(simulation_time_keyword(), v);
            assert(observation_line_bytes(l).drop_last() =~= join_spec(
                seq![simulation_time_keyword()] + seq![v],
            ));
        },
        ObservationLineModel::Datum(t, xs) => {
            assert(observation_line_bytes(l).drop_last() =~= join_spec(seq![t] + xs));
        },
    }
}

} // verus!
