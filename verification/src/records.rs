//! Alignment records: one tab-delimited line carries a read name, a
//! query length, and a traversal path; everything else is ignored.
use vstd::prelude::*;
use crate::fields::split_tabs;
use crate::num::parse_u64;
use crate::stats::{gaf_fields, line_length, line_length_ok, path_of_line};
use crate::GafError;

verus! {

/// One alignment record, as far as the pipeline reads it.  Constructed
/// per input line and discarded after the emission decision.
pub struct AlignmentRecord {
    /// The read name, already trimmed when trimming was asked for.
    pub name: Vec<u8>,
    /// The declared query length in bases.
    pub query_length: u64,
    /// The raw traversal-path field, decoded only on emission.
    pub path: Vec<u8>,
}

/// ASCII whitespace, as read-name trimming understands it.
pub open spec fn is_ws(b: u8) -> bool {
    b == ' ' as u8 || b == '\t' as u8 || b == '\n' as u8 || b == 12 || b == '\r' as u8
}

/// `s` without its leading whitespace.
pub open spec fn drop_leading_ws(s: Seq<u8>) -> Seq<u8>
    decreases s.len(),
{
    if s.len() > 0 && is_ws(s.first()) {
        drop_leading_ws(s.drop_first())
    } else {
        s
    }
}

/// The longest whitespace-free prefix of `s`.
pub open spec fn word_prefix(s: Seq<u8>) -> Seq<u8>
    decreases s.len(),
{
    if s.len() > 0 && !is_ws(s.first()) {
        seq![s.first()] + word_prefix(s.drop_first())
    } else {
        Seq::empty()
    }
}

/// The first whitespace-delimited word of `s`; empty when `s` holds
/// nothing but whitespace.
pub open spec fn first_word(s: Seq<u8>) -> Seq<u8> {
    word_prefix(drop_leading_ws(s))
}

/// Trim a read name to its first whitespace-delimited word.
///
/// Fails exactly when the name holds no word at all.
pub fn trim_name(name: &Vec<u8>) -> (r: Result<Vec<u8>, GafError>)
    ensures
        match r {
            Ok(w) => first_word(name@).len() > 0 && w@ == first_word(name@),
            Err(e) => e == GafError::EmptyName && first_word(name@).len() == 0,
        },
{
    let s = name;
    let mut i: usize = 0;
    assert(name@.skip(0) =~= name@);
    while i < s.len() && is_ws_byte(s[i])
        invariant
            0 <= i <= name@.len(),
            s == name,
            drop_leading_ws(name@) == drop_leading_ws(name@.skip(i as int)),
        decreases name@.len() - i,
    {
        assert(name@.skip(i as int).first() == name@[i as int]);
        assert(name@.skip(i as int).drop_first() =~= name@.skip(i + 1));
        i = i + 1;
    }
    proof {
        if i < name@.len() {
            assert(name@.skip(i as int).first() == name@[i as int]);
        } else {
            assert(name@.skip(i as int) =~= Seq::<u8>::empty());
        }
        assert(drop_leading_ws(name@) == name@.skip(i as int));
    }
    let start = i;
    let mut out: Vec<u8> = Vec::new();
    let mut j: usize = start;
    while j < s.len() && !is_ws_byte(s[j])
        invariant
            start <= j <= name@.len(),
            s == name,
            drop_leading_ws(name@) == name@.skip(start as int),
            word_prefix(name@.skip(start as int)) == out@ + word_prefix(name@.skip(j as int)),
        decreases name@.len() - j,
    {
        assert(name@.skip(j as int).first() == name@[j as int]);
        assert(name@.skip(j as int).drop_first() =~= name@.skip(j + 1));
        let ghost prev = out@;
        out.push(s[j]);
        proof {
            assert(word_prefix(name@.skip(j as int)) == seq![name@[j as int]] + word_prefix(
                name@.skip(j + 1),
            ));
            assert(prev + (seq![name@[j as int]] + word_prefix(name@.skip(j + 1))) =~= out@
                + word_prefix(name@.skip(j + 1)));
        }
        j = j + 1;
    }
    proof {
        if j < name@.len() {
            assert(name@.skip(j as int).first() == name@[j as int]);
        } else {
            assert(name@.skip(j as int) =~= Seq::<u8>::empty());
        }
        assert(word_prefix(name@.skip(j as int)) == Seq::<u8>::empty());
        assert(out@ + Seq::<u8>::empty() =~= out@);
        assert(out@ == first_word(name@));
    }
    if out.len() == 0 {
        Err(GafError::EmptyName)
    } else {
        Ok(out)
    }
}

/// Whether a byte is ASCII whitespace.
fn is_ws_byte(b: u8) -> (r: bool)
    ensures
        r == is_ws(b),
{
    b == ' ' as u8 || b == '\t' as u8 || b == '\n' as u8 || b == 12 || b == '\r' as u8
}

/// A line parses as a record: enough fields, a readable length, and a
/// trimmable name when trimming is asked for.
pub open spec fn record_ok(line: Seq<u8>, trim_read_name: bool) -> bool {
    &&& gaf_fields(line).len() >= 6
    &&& line_length_ok(line)
    &&& (trim_read_name ==> first_word(gaf_fields(line)[0]).len() > 0)
}

/// The name a record carries, after optional trimming.
pub open spec fn record_name(line: Seq<u8>, trim_read_name: bool) -> Seq<u8> {
    if trim_read_name {
        first_word(gaf_fields(line)[0])
    } else {
        gaf_fields(line)[0]
    }
}

/// A word never holds whitespace: trimming stops at it.
proof fn lemma_word_prefix_no_ws(s: Seq<u8>)
    ensures
        forall|i: int| 0 <= i < word_prefix(s).len() ==> !is_ws(#[trigger] word_prefix(s)[i]),
    decreases s.len(),
{
    if s.len() > 0 && !is_ws(s.first()) {
        lemma_word_prefix_no_ws(s.drop_first());
        assert forall|i: int| 0 <= i < word_prefix(s).len() implies !is_ws(
            #[trigger] word_prefix(s)[i],
        ) by {
            if i == 0 {
                assert(word_prefix(s)[0] == s.first());
            } else {
                assert(word_prefix(s)[i] == word_prefix(s.drop_first())[i - 1]);
            }
        }
    }
}

/// A record's name never holds a tab: untrimmed it is one field of a
/// tab split, trimmed it is a whitespace-free word.  So the name
/// always stays a single cell of an output row.
pub proof fn lemma_record_name_tab_free(line: Seq<u8>, trim_read_name: bool)
    requires
        gaf_fields(line).len() >= 1,
    ensures
        crate::emit::tab_free(record_name(line, trim_read_name)),
{
    if trim_read_name {
        lemma_word_prefix_no_ws(drop_leading_ws(gaf_fields(line)[0]));
        assert forall|i: int| 0 <= i < record_name(line, trim_read_name).len() implies #[trigger] record_name(
            line,
            trim_read_name,
        )[i] != crate::fields::tab() by {
            assert(!is_ws(first_word(gaf_fields(line)[0])[i]));
        }
    } else {
        crate::fields::lemma_split_by_segments_clean(line, crate::fields::tab_set());
        assert forall|i: int| 0 <= i < record_name(line, trim_read_name).len() implies #[trigger] record_name(
            line,
            trim_read_name,
        )[i] != crate::fields::tab() by {
            assert(!crate::fields::tab_set().contains(gaf_fields(line)[0][i]));
        }
    }
}

/// Parse one alignment line into a record, trimming the name when
/// asked.  The traversal path is carried raw.
///
/// Fails exactly when the line is not a well-formed record; the error
/// names the first fault in field order.
pub fn parse_record(line: &Vec<u8>, trim_read_name: bool) -> (r: Result<AlignmentRecord, GafError>)
    ensures
        match r {
            Ok(rec) => {
                &&& record_ok(line@, trim_read_name)
                &&& rec.name@ == record_name(line@, trim_read_name)
                &&& rec.query_length as nat == line_length(line@)
                &&& rec.path@ == path_of_line(line@)
            },
            Err(e) => {
                &&& !record_ok(line@, trim_read_name)
                &&& (e == GafError::MissingField <==> gaf_fields(line@).len() < 6)
                &&& (e == GafError::EmptyName <==> gaf_fields(line@).len() >= 6 && trim_read_name
                    && first_word(gaf_fields(line@)[0]).len() == 0)
                &&& (e == GafError::InvalidNumber <==> gaf_fields(line@).len() >= 6
                    && (trim_read_name ==> first_word(gaf_fields(line@)[0]).len() > 0)
                    && !line_length_ok(line@))
            },
        },
{
    let mut fields = split_tabs(line);
    let ghost fs = gaf_fields(line@);
    if fields.len() < 6 {
        return Err(GafError::MissingField);
    }
    let path = fields.remove(5);
    assert(path@ =~= fs[5]);
    let raw_name = fields.remove(0);
    assert(raw_name@ =~= fs[0]);
    let name = if trim_read_name {
        match trim_name(&raw_name) {
            Ok(w) => w,
            Err(e) => {
                return Err(e);
            },
        }
    } else {
        raw_name
    };
    let len_field = &fields[0];
    assert(len_field@ =~= fs[1]);
    let query_length = match parse_u64(len_field.as_slice()) {
        Some(v) => v,
        None => {
            return Err(GafError::InvalidNumber);
        },
    };
    Ok(AlignmentRecord { name, query_length, path })
}

} // verus!
