//! Export of the ranked entry list as delimited text.
//!
//! The verified part decides exactly what is exported: a header row
//! `File,Size`, then one row per entry with a non-zero size, in list
//! order, with the size formatted for display.  Encoding a single
//! two-field record is delegated to the `csv` crate through a trusted
//! wrapper; for fields free of the delimiter, quote and line-break
//! characters the encoding is pinned down exactly, so the whole export
//! is known byte for byte whenever the paths are that clean.

use vstd::prelude::*;

use crate::FileEntry;
use crate::format::format_size;
use crate::format::spec_format_size;

verus! {

/// What the `csv` crate writes for one record of two fields, with its
/// default configuration (comma delimiter, `\n` terminator, quoting only
/// where needed).  A pure function of the two fields.
pub uninterp spec fn csv_record_of(a: Seq<char>, b: Seq<char>) -> Seq<char>;

/// A field that needs no quoting: free of the delimiter, the quote and
/// both line-break characters.
pub open spec fn csv_clean(s: Seq<char>) -> bool {
    forall|i: int|
        0 <= i < s.len() ==> (#[trigger] s[i]) != ',' && s[i] != '"' && s[i] != '\n' && s[i]
            != '\r'
}

/// Relies on csv::Writer (write_record with the default WriterBuilder
/// configuration): one record of two fields, terminated by a newline;
/// a non-empty field containing no comma, quote, newline or carriage
/// return is written verbatim.
#[verifier::external_body]
fn csv_record_line(a: &str, b: &str) -> (r: String)
    ensures
        r@ == csv_record_of(a@, b@),
        (a@.len() > 0 && b@.len() > 0 && csv_clean(a@) && csv_clean(b@)) ==> r@ == a@ + seq![',']
            + b@ + seq!['\n'],
{
    let mut w = csv::Writer::from_writer(Vec::new());
    let _ = w.write_record([a, b]);
    match w.into_inner() {
        Ok(buf) => match String::from_utf8(buf) {
            Ok(s) => s,
            Err(_) => String::new(),
        },
        Err(_) => String::new(),
    }
}

/// The full export of a list of entries: header row, then one row per
/// entry with non-zero size, in order.
pub open spec fn spec_export(entries: Seq<FileEntry>) -> Seq<char>
    decreases entries.len(),
{
    if entries.len() == 0 {
        Seq::empty()
    } else {
        spec_export(entries.drop_last()) + (if entries.last().size > 0 {
            csv_record_of(entries.last().file@, spec_format_size(entries.last().size))
        } else {
            Seq::empty()
        })
    }
}

pub open spec fn spec_export_with_header(entries: Seq<FileEntry>) -> Seq<char> {
    csv_record_of("File"@, "Size"@) + spec_export(entries)
}

/// Serialize the entries: a `File,Size` header row, then one data row per
/// entry whose size is not zero, in list order, each `path,formatted-size`.
pub fn export_csv_text(entries: &Vec<FileEntry>) -> (r: String)
    ensures
        r@ == spec_export_with_header(entries@),
        r@.take(10) == seq!['F', 'i', 'l', 'e', ',', 'S', 'i', 'z', 'e', '\n'],
{
    proof {
        reveal_strlit("File");
        reveal_strlit("Size");
    }
    let mut r = csv_record_line("File", "Size");
    proof {
        assert(csv_clean("File"@) && csv_clean("Size"@));
        assert(r@ =~= seq!['F', 'i', 'l', 'e', ',', 'S', 'i', 'z', 'e', '\n']);
    }
    let ghost header = r@;
    let mut i: usize = 0;
    while i < entries.len()
        invariant
            0 <= i <= entries@.len(),
            header == seq!['F', 'i', 'l', 'e', ',', 'S', 'i', 'z', 'e', '\n'],
            header == csv_record_of("File"@, "Size"@),
            r@ == header + spec_export(entries@.take(i as int)),
        decreases entries@.len() - i,
    {
        let e = &entries[i];
        if e.size > 0 {
            let formatted = format_size(e.size);
            let line = csv_record_line(e.file.as_str(), formatted.as_str());
            r.append(line.as_str());
        }
        proof {
            assert(entries@.take(i + 1).drop_last() =~= entries@.take(i as int));
            assert(entries@.take(i + 1).last() == entries@[i as int]);
            assert(r@ =~= header + spec_export(entries@.take(i + 1)));
        }
        i += 1;
    }
    proof {
        assert(entries@.take(entries@.len() as int) =~= entries@);
        assert(r@.take(10) =~= header);
    }
    r
}

} // verus!
