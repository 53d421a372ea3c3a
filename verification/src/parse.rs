//! The CSV grammar: a byte-level scanner that turns delimited text into an
//! ordered sequence of records, each an ordered sequence of field values.
//!
//! Records are terminated by a line feed or a carriage return (so CRLF also
//! terminates), empty lines yield no record, fields are separated by the
//! configured delimiter, and a field may be quoted: inside quotes the
//! delimiter and terminators are ordinary bytes, and a doubled quote stands
//! for one literal quote byte. A quote inside an unquoted field is taken
//! literally.

use vstd::prelude::*;

verus! {

/// The byte that opens and closes a quoted field.
pub const QUOTE: u8 = 0x22;
/// Line feed, a record terminator.
pub const LF: u8 = 0x0a;
/// Carriage return, a record terminator.
pub const CR: u8 = 0x0d;

/// Why a CSV input is rejected.
#[derive(Clone, Copy, Debug, PartialEq, Eq, Structural)]
pub enum CsvError {
    /// The input holds no record at all, so there is no header to read.
    Empty,
    /// A quoted field is still open when the input ends.
    UnterminatedQuote,
    /// A byte other than the delimiter or a record terminator follows the
    /// closing quote of a quoted field.
    UnexpectedByteAfterQuote,
}

/// Where the scanner stands inside the current record.
#[derive(Clone, Copy, Debug, PartialEq, Eq, Structural)]
pub enum Mode {
    /// At the start of a field, nothing of it read yet.
    FieldStart,
    /// Inside an unquoted field.
    Unquoted,
    /// Inside a quoted field.
    Quoted,
    /// Just after a quote while inside a quoted field: either the field
    /// closes here, or a second quote makes it a literal quote byte.
    QuoteEnd,
}

/// The scanner's whole state: the finished records, the fields finished in
/// the current record, the bytes of the current field, and the mode.
pub struct ScanState {
    pub done: Seq<Seq<Seq<u8>>>,
    pub rec: Seq<Seq<u8>>,
    pub field: Seq<u8>,
    pub mode: Mode,
}

pub open spec fn is_terminator(b: u8) -> bool {
    b == LF || b == CR
}

pub open spec fn init_state() -> ScanState {
    ScanState { done: seq![], rec: seq![], field: seq![], mode: Mode::FieldStart }
}

/// The current field is finished and a new one begins.
pub open spec fn flush_field(st: ScanState) -> ScanState {
    ScanState { done: st.done, rec: st.rec.push(st.field), field: seq![], mode: Mode::FieldStart }
}

/// The current field and the current record are finished.
pub open spec fn flush_record(st: ScanState) -> ScanState {
    ScanState {
        done: st.done.push(st.rec.push(st.field)),
        rec: seq![],
        field: seq![],
        mode: Mode::FieldStart,
    }
}

/// One more byte goes into the current field and the scanner moves to `m`.
pub open spec fn push_byte(st: ScanState, b: u8, m: Mode) -> ScanState {
    ScanState { done: st.done, rec: st.rec, field: st.field.push(b), mode: m }
}

/// One step of the scanner on byte `b` under delimiter `d`.
pub open spec fn csv_step(st: ScanState, b: u8, d: u8) -> Result<ScanState, CsvError> {
    match st.mode {
        Mode::FieldStart => if b == d {
            Ok(flush_field(st))
        } else if b == QUOTE {
            Ok(ScanState { done: st.done, rec: st.rec, field: st.field, mode: Mode::Quoted })
        } else if is_terminator(b) {
            if st.rec.len() == 0 {
                // an empty line: no record
                Ok(st)
            } else {
                Ok(flush_record(st))
            }
        } else {
            Ok(push_byte(st, b, Mode::Unquoted))
        },
        Mode::Unquoted => if b == d {
            Ok(flush_field(st))
        } else if is_terminator(b) {
            Ok(flush_record(st))
        } else {
            Ok(push_byte(st, b, Mode::Unquoted))
        },
        Mode::Quoted => if b == QUOTE {
            Ok(ScanState { done: st.done, rec: st.rec, field: st.field, mode: Mode::QuoteEnd })
        } else {
            Ok(push_byte(st, b, Mode::Quoted))
        },
        Mode::QuoteEnd => if b == QUOTE {
            Ok(push_byte(st, QUOTE, Mode::Quoted))
        } else if b == d {
            Ok(flush_field(st))
        } else if is_terminator(b) {
            Ok(flush_record(st))
        } else {
            Err(CsvError::UnexpectedByteAfterQuote)
        },
    }
}

/// The scanner run over all of `s`, byte by byte, from the left.
pub open spec fn scan(s: Seq<u8>, d: u8) -> Result<ScanState, CsvError>
    decreases s.len(),
{
    if s.len() == 0 {
        Ok(init_state())
    } else {
        match scan(s.drop_last(), d) {
            Ok(st) => csv_step(st, s.last(), d),
            Err(e) => Err(e),
        }
    }
}

/// What the scanner's final state yields at end of input: a still-open
/// quoted field is an error, a pending record is finished without a
/// trailing terminator, and an input with no record at all is rejected.
pub open spec fn finish(st: ScanState) -> Result<Seq<Seq<Seq<u8>>>, CsvError> {
    match st.mode {
        Mode::Quoted => Err(CsvError::UnterminatedQuote),
        Mode::FieldStart => if st.rec.len() == 0 {
            if st.done.len() == 0 {
                Err(CsvError::Empty)
            } else {
                Ok(st.done)
            }
        } else {
            Ok(st.done.push(st.rec.push(st.field)))
        },
        Mode::Unquoted => Ok(st.done.push(st.rec.push(st.field))),
        Mode::QuoteEnd => Ok(st.done.push(st.rec.push(st.field))),
    }
}

/// The records of CSV input `s` under delimiter `d`, or the error on which
/// the scan stops.
pub open spec fn parse_csv_spec(s: Seq<u8>, d: u8) -> Result<Seq<Seq<Seq<u8>>>, CsvError> {
    match scan(s, d) {
        Ok(st) => finish(st),
        Err(e) => Err(e),
    }
}

/// Once the scanner stops on an error, the rest of the input changes nothing.
pub proof fn lemma_scan_error_persists(s: Seq<u8>, i: int, d: u8)
    requires
        0 <= i <= s.len(),
        scan(s.take(i), d) is Err,
    ensures
        scan(s, d) == scan(s.take(i), d),
    decreases s.len() - i,
{
    if i == s.len() {
        assert(s.take(i) =~= s);
    } else {
        assert(s.take(i + 1).drop_last() =~= s.take(i));
        assert(s.take(i + 1).len() == i + 1);
        lemma_scan_error_persists(s, i + 1, d);
    }
}

/// A parse that succeeds yields at least one record: the header.
pub proof fn lemma_parse_nonempty(s: Seq<u8>, d: u8)
    requires
        parse_csv_spec(s, d) is Ok,
    ensures
        parse_csv_spec(s, d)->Ok_0.len() >= 1,
{
}

/// Every record the scanner has finished holds at least one field.
pub proof fn lemma_scan_records_nonempty(s: Seq<u8>, d: u8)
    requires
        scan(s, d) is Ok,
    ensures
        forall|i: int|
            0 <= i < scan(s, d)->Ok_0.done.len() ==> (#[trigger] scan(s, d)->Ok_0.done[i]).len()
                >= 1,
    decreases s.len(),
{
    if s.len() == 0 {
    } else {
        lemma_scan_records_nonempty(s.drop_last(), d);
    }
}

/// Every record a successful parse yields holds at least one field; in
/// particular the header has at least one field, and every row object has
/// at least one pair.
pub proof fn lemma_parse_records_nonempty(s: Seq<u8>, d: u8)
    requires
        parse_csv_spec(s, d) is Ok,
    ensures
        forall|i: int|
            0 <= i < parse_csv_spec(s, d)->Ok_0.len() ==> (#[trigger] parse_csv_spec(
                s,
                d,
            )->Ok_0[i]).len() >= 1,
{
    lemma_scan_records_nonempty(s, d);
}

/// Reads all records of `input` under delimiter `d`, exactly as the
/// byte-level grammar `parse_csv_spec` describes.
pub fn parse_csv(input: &Vec<u8>, d: u8) -> (r: Result<Vec<Vec<Vec<u8>>>, CsvError>)
    ensures
        match r {
            Ok(t) => parse_csv_spec(input@, d) == Ok::<Seq<Seq<Seq<u8>>>, CsvError>(t.deep_view()),
            Err(e) => parse_csv_spec(input@, d) == Err::<Seq<Seq<Seq<u8>>>, CsvError>(e),
        },
{
    let mut done: Vec<Vec<Vec<u8>>> = Vec::new();
    let mut rec: Vec<Vec<u8>> = Vec::new();
    let mut field: Vec<u8> = Vec::new();
    let mut mode: Mode = Mode::FieldStart;
    let mut i: usize = 0;
    proof {
        assert(input@.take(0int) =~= Seq::<u8>::empty());
        assert(done.deep_view() =~= init_state().done);
        assert(rec.deep_view() =~= init_state().rec);
        assert(field.deep_view() =~= init_state().field);
    }
    while i < input.len()
        invariant
            0 <= i <= input@.len(),
            i <= input.len(),
            input@.len() == input.len(),
            scan(input@.take(i as int), d) == Ok::<ScanState, CsvError>(
                ScanState {
                    done: done.deep_view(),
                    rec: rec.deep_view(),
                    field: field@,
                    mode: mode,
                },
            ),
        decreases input@.len() - i,
    {
        let b = input[i];
        let ghost st0 = ScanState {
            done: done.deep_view(),
            rec: rec.deep_view(),
            field: field@,
            mode: mode,
        };
        proof {
            assert(input@.take(i as int + 1).drop_last() =~= input@.take(i as int));
            assert(input@.take(i as int + 1).last() == b);
        }
        match mode {
            Mode::FieldStart => {
                if b == d {
                    let ghost rec0 = rec.deep_view();
                    rec.push(field);
                    field = Vec::new();
                    proof {
                        assert(rec.deep_view() =~~= rec0.push(st0.field));
                        assert(field@ =~= Seq::<u8>::empty());
                    }
                } else if b == QUOTE {
                    mode = Mode::Quoted;
                } else if b == LF || b == CR {
                    if rec.len() > 0 {
                        let ghost rec0 = rec.deep_view();
                        let ghost done0 = done.deep_view();
                        rec.push(field);
                        field = Vec::new();
                        proof {
                            assert(rec.deep_view() =~~= rec0.push(st0.field));
                        }
                        let ghost full = rec.deep_view();
                        done.push(rec);
                        rec = Vec::new();
                        proof {
                            assert(done.deep_view() =~~= done0.push(full));
                            assert(rec.deep_view() =~= Seq::<Seq<u8>>::empty());
                            assert(field@ =~= Seq::<u8>::empty());
                        }
                    } else {
                        proof {
                            assert(rec.deep_view().len() == 0);
                        }
                    }
                } else {
                    field.push(b);
                    mode = Mode::Unquoted;
                    proof {
                        assert(field@ =~= st0.field.push(b));
                    }
                }
            },
            Mode::Unquoted => {
                if b == d {
                    let ghost rec0 = rec.deep_view();
                    rec.push(field);
                    field = Vec::new();
                    mode = Mode::FieldStart;
                    proof {
                        assert(rec.deep_view() =~~= rec0.push(st0.field));
                        assert(field@ =~= Seq::<u8>::empty());
                    }
                } else if b == LF || b == CR {
                    let ghost rec0 = rec.deep_view();
                    let ghost done0 = done.deep_view();
                    rec.push(field);
                    field = Vec::new();
                    mode = Mode::FieldStart;
                    proof {
                        assert(rec.deep_view() =~~= rec0.push(st0.field));
                    }
                    let ghost full = rec.deep_view();
                    done.push(rec);
                    rec = Vec::new();
                    proof {
                        assert(done.deep_view() =~~= done0.push(full));
                        assert(rec.deep_view() =~= Seq::<Seq<u8>>::empty());
                        assert(field@ =~= Seq::<u8>::empty());
                    }
                } else {
                    field.push(b);
                    proof {
                        assert(field@ =~= st0.field.push(b));
                    }
                }
            },
            Mode::Quoted => {
                if b == QUOTE {
                    mode = Mode::QuoteEnd;
                } else {
                    field.push(b);
                    proof {
                        assert(field@ =~= st0.field.push(b));
                    }
                }
            },
            Mode::QuoteEnd => {
                if b == QUOTE {
                    field.push(QUOTE);
                    mode = Mode::Quoted;
                    proof {
                        assert(field@ =~= st0.field.push(QUOTE));
                    }
                } else if b == d {
                    let ghost rec0 = rec.deep_view();
                    rec.push(field);
                    field = Vec::new();
                    mode = Mode::FieldStart;
                    proof {
                        assert(rec.deep_view() =~~= rec0.push(st0.field));
                        assert(field@ =~= Seq::<u8>::empty());
                    }
                } else if b == LF || b == CR {
                    let ghost rec0 = rec.deep_view();
                    let ghost done0 = done.deep_view();
                    rec.push(field);
                    field = Vec::new();
                    mode = Mode::FieldStart;
                    proof {
                        assert(rec.deep_view() =~~= rec0.push(st0.field));
                    }
                    let ghost full = rec.deep_view();
                    done.push(rec);
                    rec = Vec::new();
                    proof {
                        assert(done.deep_view() =~~= done0.push(full));
                        assert(rec.deep_view() =~= Seq::<Seq<u8>>::empty());
                        assert(field@ =~= Seq::<u8>::empty());
                    }
                } else {
                    proof {
                        assert(csv_step(st0, b, d) == Err::<ScanState, CsvError>(
                            CsvError::UnexpectedByteAfterQuote,
                        ));
                        assert(scan(input@.take(i as int + 1), d) == Err::<ScanState, CsvError>(
                            CsvError::UnexpectedByteAfterQuote,
                        ));
                        lemma_scan_error_persists(input@, i as int + 1, d);
                    }
                    return Err(CsvError::UnexpectedByteAfterQuote);
                }
            },
        }
        i = i + 1;
    }
    proof {
        assert(input@.take(i as int) =~= input@);
    }
    match mode {
        Mode::Quoted => Err(CsvError::UnterminatedQuote),
        Mode::FieldStart => {
            if rec.len() == 0 {
                if done.len() == 0 {
                    Err(CsvError::Empty)
                } else {
                    Ok(done)
                }
            } else {
                let ghost rec0 = rec.deep_view();
                let ghost done0 = done.deep_view();
                let ghost field0 = field@;
                rec.push(field);
                proof {
                    assert(rec.deep_view() =~~= rec0.push(field0));
                }
                let ghost full = rec.deep_view();
                done.push(rec);
                proof {
                    assert(done.deep_view() =~~= done0.push(full));
                }
                Ok(done)
            }
        },
        _ => {
            let ghost rec0 = rec.deep_view();
            let ghost done0 = done.deep_view();
            let ghost field0 = field@;
            rec.push(field);
            proof {
                assert(rec.deep_view() =~~= rec0.push(field0));
            }
            let ghost full = rec.deep_view();
            done.push(rec);
            proof {
                assert(done.deep_view() =~~= done0.push(full));
            }
            Ok(done)
        },
    }
}

} // verus!
