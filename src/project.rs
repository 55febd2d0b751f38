use vstd::prelude::*;
use vstd::utf8::encode_utf8;
use crate::json::{JsonValue, is_scalar, member, find_member};

verus! {

/// The byte `"`.
pub const QUOTE: u8 = 34;

/// The byte that ends every line.
pub const NEWLINE: u8 = 10;

/// What a conversion is asked to do.
pub struct Config {
    /// The names of the fields to write, in order.
    pub columns: Vec<String>,
    /// The text written between two fields of a line.
    pub separator: String,
    /// Whether a header line of column names comes first.
    pub show_headers: bool,
    /// Whether strings are written as they are, without quotes.
    pub raw: bool,
    /// Whether the input is a stream of independent documents rather than
    /// one array.
    pub no_root: bool,
}

/// Why a value cannot be written as a line.
#[derive(Debug, PartialEq, Eq)]
pub enum RowIssue {
    /// The value is not an object.
    NotObject,
    /// The named column holds an array or an object.
    NestedColumn(String),
}

/// The UTF-8 bytes of a string.
pub open spec fn text_bytes(s: String) -> Seq<u8> {
    encode_utf8(s@)
}

/// The bytes that stand for `c` inside quotes: a quote is doubled.
pub open spec fn piece(c: u8) -> Seq<u8> {
    if c == QUOTE {
        seq![QUOTE, QUOTE]
    } else {
        seq![c]
    }
}

/// The bytes `b` with every quote byte doubled.
pub open spec fn doubled(b: Seq<u8>) -> Seq<u8>
    decreases b.len(),
{
    if b.len() == 0 {
        Seq::empty()
    } else {
        doubled(b.drop_last()) + piece(b.last())
    }
}

/// The bytes `b` in double quotes, inner quotes doubled.
pub open spec fn quoted(b: Seq<u8>) -> Seq<u8> {
    seq![QUOTE] + doubled(b) + seq![QUOTE]
}

/// The text of a boolean.
pub open spec fn bool_bytes(b: bool) -> Seq<u8> {
    if b {
        seq![116u8, 114u8, 117u8, 101u8]
    } else {
        seq![102u8, 97u8, 108u8, 115u8, 101u8]
    }
}

/// The text of one field holding the scalar `v`.
pub open spec fn field_bytes(v: JsonValue, raw: bool) -> Seq<u8> {
    match v {
        JsonValue::Str(s) => if raw {
            text_bytes(s)
        } else {
            quoted(text_bytes(s))
        },
        JsonValue::Bool(b) => bool_bytes(b),
        JsonValue::Number(t) => text_bytes(t),
        _ => Seq::empty(),
    }
}

/// The pieces `f` with `sep` between each two neighbours.
pub open spec fn join(f: Seq<Seq<u8>>, sep: Seq<u8>) -> Seq<u8>
    decreases f.len(),
{
    if f.len() == 0 {
        Seq::empty()
    } else if f.len() == 1 {
        f[0]
    } else {
        join(f.drop_last(), sep) + sep + f.last()
    }
}

/// The fields of the line for an object with these members.
pub open spec fn cells(members: Seq<(String, JsonValue)>, columns: Seq<String>, raw: bool) -> Seq<
    Seq<u8>,
> {
    Seq::new(columns.len(), |k: int| field_bytes(member(members, columns[k]@), raw))
}

/// Whether every column of an object with these members holds a scalar.
pub open spec fn all_scalar(members: Seq<(String, JsonValue)>, columns: Seq<String>) -> bool {
    forall|k: int| 0 <= k < columns.len() ==> is_scalar(#[trigger] member(members, columns[k]@))
}

/// Whether `k` is the first column of an object with these members that
/// holds an array or an object.
pub open spec fn first_nested(members: Seq<(String, JsonValue)>, columns: Seq<String>, k: int) -> bool {
    &&& 0 <= k < columns.len()
    &&& !is_scalar(member(members, columns[k]@))
    &&& forall|j: int| 0 <= j < k ==> is_scalar(#[trigger] member(members, columns[j]@))
}

/// The header line: the column names joined by the separator, or nothing
/// where headers are off.
pub open spec fn header_spec(cfg: Config) -> Seq<u8> {
    if cfg.show_headers {
        join(Seq::new(cfg.columns@.len(), |k: int| text_bytes(cfg.columns@[k])), text_bytes(cfg.separator)).push(
            NEWLINE,
        )
    } else {
        Seq::empty()
    }
}

/// The line of an object whose columns all hold scalars.
pub open spec fn record_line(v: JsonValue, cfg: Config) -> Seq<u8> {
    match v {
        JsonValue::Object(m) => join(cells(m@, cfg.columns@, cfg.raw), text_bytes(cfg.separator)).push(
            NEWLINE,
        ),
        _ => Seq::empty(),
    }
}

/// What is written of a line before its `k`-th field fails: each field
/// before it, followed by the separator.
pub open spec fn fields_before(fields: Seq<Seq<u8>>, sep: Seq<u8>, k: int) -> Seq<u8> {
    if k == 0 {
        Seq::empty()
    } else {
        join(fields.take(k), sep) + sep
    }
}

/// What is written for a record: its whole line; or, where a column holds
/// an array or an object, the fields before the first such column, each
/// followed by the separator; or nothing, where it is not an object.
pub open spec fn written_spec(v: JsonValue, cfg: Config) -> Seq<u8> {
    match v {
        JsonValue::Object(m) => if all_scalar(m@, cfg.columns@) {
            record_line(v, cfg)
        } else {
            fields_before(
                cells(m@, cfg.columns@, cfg.raw),
                text_bytes(cfg.separator),
                choose|k: int| first_nested(m@, cfg.columns@, k),
            )
        },
        _ => Seq::empty(),
    }
}

/// The line for a record, or why there is none.
pub open spec fn row_spec(v: JsonValue, cfg: Config) -> Result<Seq<u8>, RowIssue> {
    match v {
        JsonValue::Object(m) => if all_scalar(m@, cfg.columns@) {
            Ok(record_line(v, cfg))
        } else {
            Err(RowIssue::NestedColumn(cfg.columns@[choose|k: int| first_nested(m@, cfg.columns@, k)]))
        },
        _ => Err(RowIssue::NotObject),
    }
}

proof fn lemma_join_step(f: Seq<Seq<u8>>, sep: Seq<u8>, k: int)
    requires
        0 <= k < f.len(),
    ensures
        join(f.take(k + 1), sep) == if k == 0 {
            f[0]
        } else {
            join(f.take(k), sep) + sep + f[k]
        },
{
    assert(f.take(k + 1).drop_last() =~= f.take(k));
}

proof fn lemma_doubled_step(b: Seq<u8>, i: int)
    requires
        0 <= i < b.len(),
    ensures
        doubled(b.take(i + 1)) == doubled(b.take(i)) + piece(b[i]),
{
    assert(b.take(i + 1).drop_last() =~= b.take(i));
}

/// Appends the bytes of `b` to `out`.
fn append_bytes(out: &mut Vec<u8>, b: &[u8])
    ensures
        final(out)@ == old(out)@ + b@,
{
    let ghost start = out@;
    let mut i: usize = 0;
    while i < b.len()
        invariant
            i <= b@.len(),
            out@ == start + b@.take(i as int),
        decreases b@.len() - i,
    {
        out.push(b[i]);
        i = i + 1;
        assert(out@ =~= start + b@.take(i as int));
    }
    assert(b@.take(i as int) =~= b@);
}

/// Appends `b` to `out` in double quotes, inner quotes doubled.
fn append_quoted(out: &mut Vec<u8>, b: &[u8])
    ensures
        final(out)@ == old(out)@ + quoted(b@),
{
    let ghost start = out@;
    out.push(QUOTE);
    let mut i: usize = 0;
    while i < b.len()
        invariant
            i <= b@.len(),
            out@ == start + seq![QUOTE] + doubled(b@.take(i as int)),
        decreases b@.len() - i,
    {
        proof {
            lemma_doubled_step(b@, i as int);
        }
        if b[i] == QUOTE {
            out.push(QUOTE);
            out.push(QUOTE);
        } else {
            out.push(b[i]);
        }
        i = i + 1;
        assert(out@ =~= start + seq![QUOTE] + doubled(b@.take(i as int)));
    }
    assert(b@.take(i as int) =~= b@);
    out.push(QUOTE);
    assert(out@ =~= start + quoted(b@));
}

/// Appends the text of the scalar `v` to `out`.
fn append_field(out: &mut Vec<u8>, v: &JsonValue, raw: bool)
    requires
        is_scalar(*v),
    ensures
        final(out)@ == old(out)@ + field_bytes(*v, raw),
{
    match v {
        JsonValue::Str(s) => {
            if raw {
                append_bytes(out, s.as_str().as_bytes());
            } else {
                append_quoted(out, s.as_str().as_bytes());
            }
        },
        JsonValue::Bool(b) => {
            let ghost start = out@;
            if *b {
                out.push(116u8);
                out.push(114u8);
                out.push(117u8);
                out.push(101u8);
            } else {
                out.push(102u8);
                out.push(97u8);
                out.push(108u8);
                out.push(115u8);
                out.push(101u8);
            }
            assert(out@ =~= start + bool_bytes(*b));
        },
        JsonValue::Number(t) => {
            append_bytes(out, t.as_str().as_bytes());
        },
        _ => {
            assert(out@ =~= out@ + Seq::<u8>::empty());
        },
    }
}

/// The header line for `cfg`: the column names joined by the separator and
/// ended by a newline, or nothing where headers are off.
pub fn print_header(cfg: &Config) -> (r: Vec<u8>)
    ensures
        r@ == header_spec(*cfg),
{
    let mut out: Vec<u8> = Vec::new();
    if !cfg.show_headers {
        return out;
    }
    let ghost names = Seq::new(cfg.columns@.len(), |k: int| text_bytes(cfg.columns@[k]));
    let ghost sep = text_bytes(cfg.separator);
    let n = cfg.columns.len();
    let mut k: usize = 0;
    while k < n
        invariant
            n == cfg.columns@.len(),
            names.len() == n,
            forall|j: int| 0 <= j < n ==> #[trigger] names[j] == text_bytes(cfg.columns@[j]),
            sep == text_bytes(cfg.separator),
            k <= n,
            out@ == join(names.take(k as int), sep),
        decreases n - k,
    {
        proof {
            lemma_join_step(names, sep, k as int);
        }
        if k > 0 {
            append_bytes(&mut out, cfg.separator.as_str().as_bytes());
        }
        append_bytes(&mut out, cfg.columns[k].as_str().as_bytes());
        k = k + 1;
    }
    assert(names.take(n as int) =~= names);
    out.push(NEWLINE);
    out
}

/// Appends the line for `record` to `out`, field by field: the field of
/// each column joined by the separator and ended by a newline. Fails where
/// the record is not an object, writing nothing, or at the first column
/// that holds an array or an object, which it names; the fields before that
/// column, each followed by the separator, then stay written.
pub fn print_line(record: &JsonValue, cfg: &Config, out: &mut Vec<u8>) -> (r: Result<(), RowIssue>)
    ensures
        final(out)@ == old(out)@ + written_spec(*record, *cfg),
        match r {
            Ok(_) => row_spec(*record, *cfg) is Ok,
            Err(e) => row_spec(*record, *cfg) == Err::<Seq<u8>, RowIssue>(e),
        },
{
    let members = match record {
        JsonValue::Object(m) => m,
        _ => {
            assert(out@ =~= out@ + Seq::<u8>::empty());
            return Err(RowIssue::NotObject);
        },
    };
    let ghost start = out@;
    let ghost fields = cells(members@, cfg.columns@, cfg.raw);
    let ghost sep = text_bytes(cfg.separator);
    let n = cfg.columns.len();
    let mut k: usize = 0;
    while k < n
        invariant
            n == cfg.columns@.len(),
            *record == JsonValue::Object(*members),
            start == old(out)@,
            fields == cells(members@, cfg.columns@, cfg.raw),
            sep == text_bytes(cfg.separator),
            k <= n,
            out@ == start + join(fields.take(k as int), sep),
            forall|j: int| 0 <= j < k ==> is_scalar(#[trigger] member(members@, cfg.columns@[j]@)),
        decreases n - k,
    {
        let col = &cfg.columns[k];
        let found = find_member(members, col);
        let null = JsonValue::Null;
        let value = match found {
            Some(i) => &members[i].1,
            None => &null,
        };
        if value.is_nested() {
            proof {
                assert(first_nested(members@, cfg.columns@, k as int));
                assert(!all_scalar(members@, cfg.columns@));
                let c = choose|c: int| first_nested(members@, cfg.columns@, c);
                assert(c == k) by {
                    if c < k {
                        assert(is_scalar(member(members@, cfg.columns@[c]@)));
                    }
                    if k < c {
                        assert(is_scalar(member(members@, cfg.columns@[k as int]@)));
                    }
                }
                assert(row_spec(*record, *cfg) == Err::<Seq<u8>, RowIssue>(
                    RowIssue::NestedColumn(cfg.columns@[k as int]),
                ));
                assert(written_spec(*record, *cfg) == fields_before(fields, sep, k as int));
            }
            if k > 0 {
                append_bytes(out, cfg.separator.as_str().as_bytes());
            }
            assert(out@ =~= start + fields_before(fields, sep, k as int));
            return Err(RowIssue::NestedColumn(col.clone()));
        }
        proof {
            lemma_join_step(fields, sep, k as int);
        }
        if k > 0 {
            append_bytes(out, cfg.separator.as_str().as_bytes());
        }
        append_field(out, value, cfg.raw);
        assert(out@ =~= start + join(fields.take(k + 1), sep));
        k = k + 1;
    }
    assert(fields.take(n as int) =~= fields);
    out.push(NEWLINE);
    assert(out@ =~= start + record_line(*record, *cfg));
    Ok(())
}

} // verus!
