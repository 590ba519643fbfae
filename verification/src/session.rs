//! The state of one scanning session, as the consumer holds it.
//!
//! A session accumulates the streamed entries, re-ranks them every
//! `sort_cutoff` arrivals and once more when the scan finishes, tracks
//! whether a scan is running, and carries the display settings.  Parsing
//! of the settings input is verified down to the byte.

use vstd::prelude::*;
use vstd::string::StringSliceAdditionalSpecFns;

use crate::FileEntry;
use crate::format::append_decimal;
use crate::format::dec_digits;
use crate::rank::rerank;
use crate::rank::sorted_desc;

verus! {

/// Display settings: how many entries to show, and whether to resolve
/// last-accessed timestamps for the displayed rows.
pub struct AppSettings {
    pub entries_visible: usize,
    pub show_last_accessed: bool,
}

impl Default for AppSettings {
    /// Twenty entries shown, timestamps on.
    fn default() -> (r: Self)
        ensures
            r.entries_visible == 20,
            r.show_last_accessed,
    {
        AppSettings { entries_visible: 20, show_last_accessed: true }
    }
}

/// Which view the consumer is showing.
#[derive(Clone, Copy, PartialEq, Eq, Structural)]
pub enum Mode {
    Main,
    About,
    Settings,
}

impl Default for Mode {
    fn default() -> (r: Self)
        ensures
            r == Mode::Main,
    {
        Mode::Main
    }
}

// ---------------------------------------------------------------------
// Verified parsing of the entries-visible setting.
// ---------------------------------------------------------------------

pub open spec fn is_ascii_digit(b: u8) -> bool {
    48 <= b && b <= 57
}

pub open spec fn all_digits(s: Seq<u8>) -> bool {
    forall|i: int| 0 <= i < s.len() ==> is_ascii_digit(#[trigger] s[i])
}

/// The number the digit bytes denote, most significant first.
pub open spec fn digits_value(s: Seq<u8>) -> int
    decreases s.len(),
{
    if s.len() == 0 {
        0
    } else {
        digits_value(s.drop_last()) * 10 + (s.last() - 48)
    }
}

/// How `str::parse::<usize>` reads a string, over its bytes: an optional
/// leading plus sign, then at least one decimal digit, and the value must
/// fit the machine word; anything else is rejected.
pub open spec fn spec_parse_usize(s: Seq<u8>) -> Option<int> {
    let body = if s.len() >= 1 && s[0] == 43 {
        s.skip(1)
    } else {
        s
    };
    if body.len() >= 1 && all_digits(body) && digits_value(body) <= usize::MAX as int {
        Some(digits_value(body))
    } else {
        None
    }
}

pub proof fn lemma_digits_value_nonneg(s: Seq<u8>)
    requires
        all_digits(s),
    ensures
        digits_value(s) >= 0,
    decreases s.len(),
{
    if s.len() > 0 {
        assert(forall|i: int|
            0 <= i < s.drop_last().len() ==> is_ascii_digit(#[trigger] s.drop_last()[i]));
        lemma_digits_value_nonneg(s.drop_last());
    }
}

/// A longer digit string denotes at least as large a number.
pub proof fn lemma_digits_value_prefix(s: Seq<u8>, k: int)
    requires
        all_digits(s),
        0 <= k <= s.len(),
    ensures
        digits_value(s.take(k)) <= digits_value(s),
    decreases s.len() - k,
{
    if k < s.len() {
        assert(s.take(k + 1).drop_last() =~= s.take(k));
        assert(s.take(k + 1).last() == s[k]);
        assert(forall|i: int| 0 <= i < s.take(k).len() ==> is_ascii_digit(#[trigger] s.take(k)[i]));
        lemma_digits_value_nonneg(s.take(k));
        lemma_digits_value_prefix(s, k + 1);
    } else {
        assert(s.take(k) =~= s);
    }
}

/// Parse a decimal `usize`, exactly as the standard parser accepts it.
pub fn parse_usize(s: &str) -> (r: Option<usize>)
    ensures
        match r {
            Some(v) => spec_parse_usize(s.spec_bytes()) == Some(v as int),
            None => spec_parse_usize(s.spec_bytes()) is None,
        },
{
    let b = s.as_bytes();
    let ghost bytes = s.spec_bytes();
    let mut start: usize = 0;
    if b.len() >= 1 && b[0] == 43 {
        start = 1;
    }
    let ghost body = if bytes.len() >= 1 && bytes[0] == 43 {
        bytes.skip(1)
    } else {
        bytes
    };
    proof {
        assert(body =~= bytes.skip(start as int));
    }
    if b.len() == start {
        return None;
    }
    let mut acc: usize = 0;
    let mut i: usize = start;
    while i < b.len()
        invariant
            bytes == s.spec_bytes(),
            b@ == bytes,
            start <= i <= b@.len(),
            start <= 1,
            (start == 1) <==> (bytes.len() >= 1 && bytes[0] == 43),
            body == bytes.skip(start as int),
            body == (if bytes.len() >= 1 && bytes[0] == 43 {
                bytes.skip(1)
            } else {
                bytes
            }),
            body.len() > 0,
            all_digits(body.take(i - start)),
            acc as int == digits_value(body.take(i - start)),
        decreases b@.len() - i,
    {
        let d = b[i];
        proof {
            assert(body[i - start] == bytes[i as int]);
        }
        if d < 48 || d > 57 {
            proof {
                assert(!is_ascii_digit(body[i - start]));
                assert(!all_digits(body));
            }
            return None;
        }
        let dv = (d - 48) as usize;
        let ghost pre = body.take(i - start);
        proof {
            assert(body.take(i - start + 1).drop_last() =~= pre);
            assert(body.take(i - start + 1).last() == body[i - start]);
            assert(digits_value(body.take(i - start + 1)) == acc as int * 10 + dv as int);
            lemma_digits_value_nonneg(pre);
        }
        if acc > (usize::MAX - dv) / 10 {
            proof {
                vstd::arithmetic::div_mod::lemma_fundamental_div_mod(
                    usize::MAX as int - dv as int,
                    10,
                );
                assert(acc as int * 10 + dv as int > usize::MAX as int);
                if all_digits(body) {
                    lemma_digits_value_prefix(body, i - start + 1);
                    assert(digits_value(body) >= digits_value(body.take(i - start + 1)));
                    assert(digits_value(body.take(i - start + 1)) == acc as int * 10 + dv as int);
                    assert(digits_value(body) > usize::MAX as int);
                    assert(!(body.len() >= 1 && all_digits(body) && digits_value(body)
                        <= usize::MAX as int));
                    assert(spec_parse_usize(bytes) is None);
                } else {
                    assert(spec_parse_usize(bytes) is None);
                }
            }
            return None;
        }
        proof {
            vstd::arithmetic::div_mod::lemma_fundamental_div_mod(
                usize::MAX as int - dv as int,
                10,
            );
            assert(acc as int * 10 + dv as int <= usize::MAX as int);
        }
        acc = acc * 10 + dv;
        i += 1;
        proof {
            assert(all_digits(body.take(i - start))) by {
                assert(forall|m: int|
                    0 <= m < pre.len() ==> is_ascii_digit(#[trigger] body.take(
                        i - start,
                    )[m]) == is_ascii_digit(pre[m]));
            }
        }
    }
    proof {
        assert(body.take(b@.len() - start) =~= body);
    }
    Some(acc)
}

// ---------------------------------------------------------------------
// The session itself.
// ---------------------------------------------------------------------

/// The status line shown after a re-rank.
pub open spec fn spec_status(n: int, k: int) -> Seq<char> {
    "Scanned "@ + dec_digits(n) + " folders, showing the "@ + dec_digits(k) + " biggest ones"@
}

fn status_line(n: u64, k: u64) -> (r: String)
    ensures
        r@ == spec_status(n as int, k as int),
{
    let mut r = String::new();
    r.append("Scanned ");
    append_decimal(&mut r, n);
    r.append(" folders, showing the ");
    append_decimal(&mut r, k);
    r.append(" biggest ones");
    proof {
        assert(r@ =~= spec_status(n as int, k as int));
    }
    r
}

/// The mutable state of one in-progress scan: the accumulated entries, the
/// re-rank counter, whether a scan is running, the display settings, and
/// the consumer-facing status line.
pub struct ScanSession {
    pub mode: Mode,
    pub entries: Vec<FileEntry>,
    pub sort_cutoff: usize,
    pub scanning: bool,
    pub settings: AppSettings,
    pub status: String,
    pub show_wait_dialog: bool,
}

impl Default for ScanSession {
    /// A fresh session: no entries, not scanning, re-rank every thousand
    /// entries, default settings.
    fn default() -> (r: Self)
        ensures
            r.mode == Mode::Main,
            r.entries@.len() == 0,
            r.sort_cutoff == 1000,
            !r.scanning,
            r.settings.entries_visible == 20,
            r.settings.show_last_accessed,
            r.status@.len() == 0,
            !r.show_wait_dialog,
    {
        ScanSession {
            mode: Mode::Main,
            entries: Vec::new(),
            sort_cutoff: 1000,
            scanning: false,
            settings: AppSettings::default(),
            status: String::new(),
            show_wait_dialog: false,
        }
    }
}

impl ScanSession {
    /// Re-rank the accumulated entries by descending size and refresh the
    /// status line.  The entries are only reordered, never changed.
    pub fn bake(&mut self)
        ensures
            sorted_desc(final(self).entries@),
            final(self).entries@.to_multiset() == old(self).entries@.to_multiset(),
            final(self).entries@.len() == old(self).entries@.len(),
            sorted_desc(old(self).entries@) ==> final(self).entries@ == old(self).entries@,
            final(self).status@ == spec_status(
                old(self).entries@.len() as int,
                old(self).settings.entries_visible as int,
            ),
            final(self).mode == old(self).mode,
            final(self).sort_cutoff == old(self).sort_cutoff,
            final(self).scanning == old(self).scanning,
            final(self).settings == old(self).settings,
            final(self).show_wait_dialog == old(self).show_wait_dialog,
    {
        rerank(&mut self.entries);
        self.status = status_line(self.entries.len() as u64, self.settings.entries_visible as u64);
    }

    /// Record one streamed entry; every `sort_cutoff`-th arrival triggers
    /// a re-rank.  Every already-recorded entry is retained.
    pub fn record_entry(&mut self, e: FileEntry)
        requires
            old(self).sort_cutoff > 0,
        ensures
            final(self).entries@.to_multiset() == old(self).entries@.to_multiset().insert(e),
            final(self).entries@.len() == old(self).entries@.len() + 1,
            (old(self).entries@.len() + 1) as int % old(self).sort_cutoff as int != 0 ==> (
            final(self).entries@ == old(self).entries@.push(e) && final(self).status == old(
                self,
            ).status),
            (old(self).entries@.len() + 1) as int % old(self).sort_cutoff as int == 0 ==> (
            sorted_desc(final(self).entries@) && final(self).status@ == spec_status(
                old(self).entries@.len() as int + 1,
                old(self).settings.entries_visible as int,
            )),
            final(self).mode == old(self).mode,
            final(self).sort_cutoff == old(self).sort_cutoff,
            final(self).scanning == old(self).scanning,
            final(self).settings == old(self).settings,
            final(self).show_wait_dialog == old(self).show_wait_dialog,
    {
        broadcast use vstd::seq_lib::group_to_multiset_ensures;

        self.entries.push(e);
        if self.entries.len() % self.sort_cutoff == 0 {
            self.bake();
        }
    }

    /// A scan has finished: mark it so and rank the final view.
    pub fn finish(&mut self)
        ensures
            !final(self).scanning,
            sorted_desc(final(self).entries@),
            final(self).entries@.to_multiset() == old(self).entries@.to_multiset(),
            final(self).entries@.len() == old(self).entries@.len(),
            final(self).status@ == spec_status(
                old(self).entries@.len() as int,
                old(self).settings.entries_visible as int,
            ),
            final(self).mode == old(self).mode,
            final(self).sort_cutoff == old(self).sort_cutoff,
            final(self).settings == old(self).settings,
            final(self).show_wait_dialog == old(self).show_wait_dialog,
    {
        self.scanning = false;
        self.bake();
    }

    /// Start a new scan: the consumer clears its accumulated entries
    /// before issuing the command.
    pub fn begin_scan(&mut self)
        ensures
            final(self).entries@.len() == 0,
            final(self).scanning,
            final(self).mode == old(self).mode,
            final(self).sort_cutoff == old(self).sort_cutoff,
            final(self).settings == old(self).settings,
            final(self).status == old(self).status,
            final(self).show_wait_dialog == old(self).show_wait_dialog,
    {
        self.entries = Vec::new();
        self.scanning = true;
    }

    /// A folder was selected: refuse it while a scan is already running
    /// (showing the wait dialog instead), otherwise begin the scan.
    pub fn accept_folder_selection(&mut self) -> (accepted: bool)
        ensures
            accepted == !old(self).scanning,
            !old(self).scanning ==> final(self).entries@.len() == 0 && final(self).scanning
                && final(self).show_wait_dialog == old(self).show_wait_dialog,
            old(self).scanning ==> final(self).entries == old(self).entries
                && final(self).show_wait_dialog && final(self).scanning,
            final(self).mode == old(self).mode,
            final(self).sort_cutoff == old(self).sort_cutoff,
            final(self).settings == old(self).settings,
            final(self).status == old(self).status,
    {
        if self.scanning {
            self.show_wait_dialog = true;
            false
        } else {
            self.begin_scan();
            true
        }
    }

    /// Apply the entries-to-show setting from its text field; malformed
    /// input leaves the setting unchanged.
    pub fn set_entries_visible(&mut self, value: &str)
        ensures
            match spec_parse_usize(value.spec_bytes()) {
                Some(v) => final(self).settings.entries_visible as int == v,
                None => final(self).settings.entries_visible == old(self).settings.entries_visible,
            },
            final(self).settings.show_last_accessed == old(self).settings.show_last_accessed,
            final(self).entries == old(self).entries,
            final(self).mode == old(self).mode,
            final(self).sort_cutoff == old(self).sort_cutoff,
            final(self).scanning == old(self).scanning,
            final(self).status == old(self).status,
            final(self).show_wait_dialog == old(self).show_wait_dialog,
    {
        match parse_usize(value) {
            Some(n) => {
                self.settings.entries_visible = n;
            },
            None => {},
        }
    }

    pub fn set_show_last_accessed(&mut self, v: bool)
        ensures
            final(self).settings.show_last_accessed == v,
            final(self).settings.entries_visible == old(self).settings.entries_visible,
            final(self).entries == old(self).entries,
            final(self).mode == old(self).mode,
            final(self).sort_cutoff == old(self).sort_cutoff,
            final(self).scanning == old(self).scanning,
            final(self).status == old(self).status,
            final(self).show_wait_dialog == old(self).show_wait_dialog,
    {
        self.settings.show_last_accessed = v;
    }

    pub fn set_mode(&mut self, m: Mode)
        ensures
            final(self).mode == m,
            final(self).entries == old(self).entries,
            final(self).sort_cutoff == old(self).sort_cutoff,
            final(self).scanning == old(self).scanning,
            final(self).settings == old(self).settings,
            final(self).status == old(self).status,
            final(self).show_wait_dialog == old(self).show_wait_dialog,
    {
        self.mode = m;
    }

    pub fn close_wait_dialog(&mut self)
        ensures
            !final(self).show_wait_dialog,
            final(self).entries == old(self).entries,
            final(self).mode == old(self).mode,
            final(self).sort_cutoff == old(self).sort_cutoff,
            final(self).scanning == old(self).scanning,
            final(self).settings == old(self).settings,
            final(self).status == old(self).status,
    {
        self.show_wait_dialog = false;
    }

    /// How many of the ranked entries the consumer will display.
    pub fn visible_count(&self) -> (r: usize)
        ensures
            r == if self.entries@.len() < self.settings.entries_visible as int {
                self.entries@.len() as int
            } else {
                self.settings.entries_visible as int
            },
    {
        if self.entries.len() < self.settings.entries_visible {
            self.entries.len()
        } else {
            self.settings.entries_visible
        }
    }

    /// Lazily enrich one displayed entry with its last-accessed time
    /// (seconds since the Unix epoch), fetched by the caller.
    pub fn set_accessed(&mut self, i: usize, ts: i64)
        requires
            i < old(self).entries@.len(),
        ensures
            final(self).entries@.len() == old(self).entries@.len(),
            final(self).entries@[i as int].file == old(self).entries@[i as int].file,
            final(self).entries@[i as int].size == old(self).entries@[i as int].size,
            final(self).entries@[i as int].accessed == Some(ts),
            forall|m: int|
                0 <= m < old(self).entries@.len() && m != i ==> final(self).entries@[m] == old(
                    self,
                ).entries@[m],
            final(self).mode == old(self).mode,
            final(self).sort_cutoff == old(self).sort_cutoff,
            final(self).scanning == old(self).scanning,
            final(self).settings == old(self).settings,
            final(self).status == old(self).status,
            final(self).show_wait_dialog == old(self).show_wait_dialog,
    {
        let file = self.entries[i].file.clone();
        let size = self.entries[i].size;
        self.entries.set(i, FileEntry { file, size, accessed: Some(ts) });
    }
}

} // verus!
