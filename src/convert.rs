use vstd::prelude::*;
use crate::json::JsonValue;
use crate::project::{Config, RowIssue, header_spec, row_spec, written_spec, print_header, print_line};
use crate::decode::{Pulled, document_of, first_document_of, decode_single, decode_next};

verus! {

/// Why a conversion stopped.
#[derive(Debug)]
pub enum ConvertError {
    /// The input is not valid JSON.
    Parse(serde_json::Error),
    /// The single document of the input is not an array.
    Shape,
    /// A record is not an object.
    InvalidRecord(JsonValue),
    /// The named column of a record holds an array or an object.
    InvalidColumn(String),
}

/// The kind of a `ConvertError`, with what the contracts say of it.
pub enum Fault {
    /// The input is not valid JSON.
    Parse,
    /// The single document of the input is not an array.
    Shape,
    /// This record is not an object.
    InvalidRecord(JsonValue),
    /// This column of a record holds an array or an object.
    InvalidColumn(String),
}

/// What a conversion wrote, and the error that stopped it, if any.
pub struct Conversion {
    /// The header and the lines of the records before the first error.
    pub output: Vec<u8>,
    /// The error that stopped the conversion, if one did.
    pub error: Option<ConvertError>,
}

/// What one step through a stream of documents came to.
#[derive(Debug)]
pub enum Step {
    /// Nothing but whitespace was left.
    End,
    /// A document was written; the next one starts at this position.
    Next(usize),
    /// The conversion stops on this error.
    Stop(ConvertError),
}

/// The kind of an error, leaving out the decoder's own description.
pub open spec fn fault_of(e: ConvertError) -> Fault {
    match e {
        ConvertError::Parse(_) => Fault::Parse,
        ConvertError::Shape => Fault::Shape,
        ConvertError::InvalidRecord(v) => Fault::InvalidRecord(v),
        ConvertError::InvalidColumn(c) => Fault::InvalidColumn(c),
    }
}

/// The bytes written and the fault met, as the contracts see them.
pub open spec fn outcome(r: Conversion) -> (Seq<u8>, Option<Fault>) {
    (
        r.output@,
        match r.error {
            Some(e) => Some(fault_of(e)),
            None => None,
        },
    )
}

/// The fault for a record that cannot be written.
pub open spec fn issue_fault(v: JsonValue, issue: RowIssue) -> Fault {
    match issue {
        RowIssue::NotObject => Fault::InvalidRecord(v),
        RowIssue::NestedColumn(c) => Fault::InvalidColumn(c),
    }
}

/// The lines of `records` up to the first that cannot be written, then
/// what is written of that one, and its fault.
pub open spec fn rows_spec(records: Seq<JsonValue>, cfg: Config) -> (Seq<u8>, Option<Fault>)
    decreases records.len(),
{
    if records.len() == 0 {
        (Seq::empty(), None)
    } else {
        match row_spec(records[0], cfg) {
            Ok(line) => {
                let rest = rows_spec(records.drop_first(), cfg);
                (line + rest.0, rest.1)
            },
            Err(issue) => (written_spec(records[0], cfg), Some(issue_fault(records[0], issue))),
        }
    }
}

/// A conversion of one decoded document: an array gives the header and its
/// elements' lines; anything else is a shape fault, with nothing written.
pub open spec fn document_spec(doc: JsonValue, cfg: Config) -> (Seq<u8>, Option<Fault>) {
    match doc {
        JsonValue::Array(items) => {
            let rows = rows_spec(items@, cfg);
            (header_spec(cfg) + rows.0, rows.1)
        },
        _ => (Seq::empty(), Some(Fault::Shape)),
    }
}

/// The lines of the documents that `input` holds one after another, up to
/// the first that is malformed or cannot be written, then what is written
/// of that one, and the fault.
pub open spec fn stream_spec(input: Seq<u8>, cfg: Config) -> (Seq<u8>, Option<Fault>)
    decreases input.len(),
{
    match first_document_of(input) {
        Pulled::End => (Seq::empty(), None),
        Pulled::Item(v, n) => if 0 < n <= input.len() {
            match row_spec(v, cfg) {
                Ok(line) => {
                    let rest = stream_spec(input.subrange(n as int, input.len() as int), cfg);
                    (line + rest.0, rest.1)
                },
                Err(issue) => (written_spec(v, cfg), Some(issue_fault(v, issue))),
            }
        } else {
            (Seq::empty(), Some(Fault::Parse))
        },
        Pulled::Failed => (Seq::empty(), Some(Fault::Parse)),
    }
}

/// What one step of a stream writes: all or part of the line of the first
/// document, or nothing where there is none.
pub open spec fn step_written(rest: Seq<u8>, cfg: Config) -> Seq<u8> {
    match first_document_of(rest) {
        Pulled::Item(v, n) => if 0 < n <= rest.len() {
            written_spec(v, cfg)
        } else {
            Seq::empty()
        },
        _ => Seq::empty(),
    }
}

/// The fault that one step of a stream meets, if any.
pub open spec fn step_fault(rest: Seq<u8>, cfg: Config) -> Option<Fault> {
    match first_document_of(rest) {
        Pulled::End => None,
        Pulled::Item(v, n) => if 0 < n <= rest.len() {
            match row_spec(v, cfg) {
                Ok(_) => None,
                Err(issue) => Some(issue_fault(v, issue)),
            }
        } else {
            Some(Fault::Parse)
        },
        Pulled::Failed => Some(Fault::Parse),
    }
}

/// A whole conversion of `input` under `cfg`.
pub open spec fn convert_spec(input: Seq<u8>, cfg: Config) -> (Seq<u8>, Option<Fault>) {
    if cfg.no_root {
        let rows = stream_spec(input, cfg);
        (header_spec(cfg) + rows.0, rows.1)
    } else {
        match document_of(input) {
            Some(doc) => document_spec(doc, cfg),
            None => (Seq::empty(), Some(Fault::Parse)),
        }
    }
}

/// The error for a record that cannot be written.
fn issue_error(record: JsonValue, issue: RowIssue) -> (r: ConvertError)
    ensures
        fault_of(r) == issue_fault(record, issue),
{
    match issue {
        RowIssue::NotObject => ConvertError::InvalidRecord(record),
        RowIssue::NestedColumn(c) => ConvertError::InvalidColumn(c),
    }
}

/// Converts one decoded document: the header and a line for each element
/// where it is an array, up to the first element that cannot be written,
/// of which the fields before the failing column stay written.
pub fn render_document(doc: JsonValue, cfg: &Config) -> (r: Conversion)
    ensures
        outcome(r) == document_spec(doc, *cfg),
{
    let mut items = match doc {
        JsonValue::Array(items) => items,
        _ => {
            return Conversion { output: Vec::new(), error: Some(ConvertError::Shape) };
        },
    };
    let ghost all = items@;
    let ghost h = header_spec(*cfg).len() as int;
    let mut output = print_header(cfg);
    let n = items.len();
    let mut i: usize = 0;
    assert(all.skip(0) =~= all);
    while i < n
        invariant
            n == all.len(),
            items@ == all,
            document_spec(doc, *cfg) == (header_spec(*cfg) + rows_spec(all, *cfg).0, rows_spec(
                all,
                *cfg,
            ).1),
            i <= n,
            h == header_spec(*cfg).len(),
            rows_spec(all, *cfg) == (output@.skip(h) + rows_spec(all.skip(i as int), *cfg).0,
            rows_spec(all.skip(i as int), *cfg).1),
            output@.take(h) == header_spec(*cfg),
            h <= output@.len(),
        decreases n - i,
    {
        assert(all.skip(i as int).drop_first() =~= all.skip(i as int + 1));
        assert(all.skip(i as int)[0] == all[i as int]);
        let ghost before = output@;
        let step = print_line(&items[i], cfg, &mut output);
        assert(output@.skip(h) =~= before.skip(h) + written_spec(all[i as int], *cfg));
        assert(output@.take(h) =~= before.take(h));
        match step {
            Ok(()) => {},
            Err(issue) => {
                let record = items.remove(i);
                let error = issue_error(record, issue);
                assert(output@ =~= header_spec(*cfg) + output@.skip(h));
                return Conversion { output, error: Some(error) };
            },
        }
        i = i + 1;
    }
    assert(output@ =~= header_spec(*cfg) + output@.skip(h));
    Conversion { output, error: None }
}

/// Takes one step through the documents that `input` holds one after
/// another, from `start`: appends to `out` the line of the next document,
/// and says where the one after it starts; or says that none is left; or
/// stops on a malformed document, or on one that cannot be written, of
/// which the fields before the failing column stay written.
pub fn render_next(input: &[u8], start: usize, cfg: &Config, out: &mut Vec<u8>) -> (r: Step)
    requires
        start <= input@.len(),
    ensures
        final(out)@ == old(out)@ + step_written(input@.subrange(start as int, input@.len() as int), *cfg),
        match r {
            Step::End => first_document_of(input@.subrange(start as int, input@.len() as int)) is End,
            Step::Next(pos) => {
                &&& step_fault(input@.subrange(start as int, input@.len() as int), *cfg) is None
                &&& start < pos <= input@.len()
                &&& (first_document_of(input@.subrange(start as int, input@.len() as int)) matches Pulled::Item(_, n)
                    && pos == start + n)
            },
            Step::Stop(e) => step_fault(input@.subrange(start as int, input@.len() as int), *cfg)
                == Some(fault_of(e)),
        },
{
    let len = input.len();
    match decode_next(input, start) {
        None => {
            assert(out@ =~= out@ + Seq::<u8>::empty());
            Step::End
        },
        Some(Err(e)) => {
            assert(out@ =~= out@ + Seq::<u8>::empty());
            Step::Stop(ConvertError::Parse(e))
        },
        Some(Ok((record, n))) => {
            match print_line(&record, cfg, out) {
                Ok(()) => Step::Next(start + n),
                Err(issue) => Step::Stop(issue_error(record, issue)),
            }
        },
    }
}

/// Converts the documents that `input` holds one after another: the header,
/// then a line for each document, up to the first that is malformed or
/// cannot be written, of which the fields before the failing column stay
/// written.
pub fn render_stream(input: &[u8], cfg: &Config) -> (r: Conversion)
    ensures
        outcome(r) == ({
            let rows = stream_spec(input@, *cfg);
            (header_spec(*cfg) + rows.0, rows.1)
        }),
{
    let mut output = print_header(cfg);
    let ghost h = header_spec(*cfg).len() as int;
    let len = input.len();
    let mut pos: usize = 0;
    assert(input@.subrange(0, len as int) =~= input@);
    loop
        invariant
            len == input@.len(),
            pos <= len,
            h == header_spec(*cfg).len(),
            h <= output@.len(),
            output@.take(h) == header_spec(*cfg),
            stream_spec(input@, *cfg) == (output@.skip(h) + stream_spec(
                input@.subrange(pos as int, len as int),
                *cfg,
            ).0, stream_spec(input@.subrange(pos as int, len as int), *cfg).1),
        decreases len - pos,
    {
        let ghost rest = input@.subrange(pos as int, len as int);
        let ghost before = output@;
        let step = render_next(input, pos, cfg, &mut output);
        assert(output@.skip(h) =~= before.skip(h) + step_written(rest, *cfg));
        assert(output@.take(h) =~= before.take(h));
        match step {
            Step::End => {
                assert(output@ =~= header_spec(*cfg) + output@.skip(h));
                return Conversion { output, error: None };
            },
            Step::Stop(e) => {
                assert(output@ =~= header_spec(*cfg) + output@.skip(h));
                return Conversion { output, error: Some(e) };
            },
            Step::Next(next) => {
                proof {
                    if let Pulled::Item(v, n) = first_document_of(rest) {
                        assert(rest.subrange(n as int, rest.len() as int) =~= input@.subrange(
                            next as int,
                            len as int,
                        ));
                    }
                }
                pos = next;
            },
        }
    }
}

/// Converts `input` under `cfg`: a stream of documents where `no_root` is
/// set, else one document that must be an array.
pub fn convert(input: &[u8], cfg: &Config) -> (r: Conversion)
    ensures
        outcome(r) == convert_spec(input@, *cfg),
{
    if cfg.no_root {
        render_stream(input, cfg)
    } else {
        match decode_single(input) {
            Ok(doc) => render_document(doc, cfg),
            Err(e) => Conversion { output: Vec::new(), error: Some(ConvertError::Parse(e)) },
        }
    }
}

} // verus!
