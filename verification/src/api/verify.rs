//! What an integrity check reports.
//!
//! Reports rather than repairs. Deciding what to discard is not a choice a library should make
//! silently on someone's behalf; a report is what makes the choice possible.
use vstd::prelude::*;

use crate::bytes;
use crate::error;
use crate::format::manifest;
use crate::format::manifest::{CollectionEntry, EntryModel};
use crate::text;

verus! {

/// How thoroughly to check.
#[derive(Debug, Clone, Copy, PartialEq, Eq, Structural)]
pub enum VerifyLevel {
    /// Counts and references only.
    Quick,
    /// Every checksum too.
    Full,
}

/// What was found of one collection.
#[derive(Debug, PartialEq)]
pub struct CollectionVerify {
    /// The collection's name.
    pub name: String,
    /// Live documents that its segments hold.
    pub live_documents: u64,
    /// Rows that its segments hold.
    pub total_rows: u64,
}

/// What was found of one collection, independent of how it is held in memory.
pub struct VerifyModel {
    pub name: Seq<char>,
    pub live_documents: u64,
    pub total_rows: u64,
}

impl View for CollectionVerify {
    type V = VerifyModel;

    open spec fn view(&self) -> VerifyModel {
        VerifyModel {
            name: self.name@,
            live_documents: self.live_documents,
            total_rows: self.total_rows,
        }
    }
}

/// What checking one collection by itself gave.
#[derive(Debug)]
pub struct CollectionCheck {
    /// What its segments hold.
    pub result: CollectionVerify,
    /// Damage.
    pub errors: Vec<String>,
    /// What is odd, but no damage.
    pub warnings: Vec<String>,
}

/// What checking one collection gave, independent of how it is held in memory.
pub struct CheckModel {
    pub result: VerifyModel,
    pub errors: Seq<Seq<char>>,
    pub warnings: Seq<Seq<char>>,
}

impl View for CollectionCheck {
    type V = CheckModel;

    open spec fn view(&self) -> CheckModel {
        CheckModel {
            result: self.result@,
            errors: error::texts(self.errors@),
            warnings: error::texts(self.warnings@),
        }
    }
}

/// What an integrity check found.
#[derive(Debug)]
pub struct VerifyReport {
    /// How thoroughly it looked.
    pub level: VerifyLevel,
    /// Each collection, in the manifest's order.
    pub collections: Vec<CollectionVerify>,
    /// Damage.
    pub errors: Vec<String>,
    /// What is odd, but no damage.
    pub warnings: Vec<String>,
}

/// What an integrity check found, independent of how it is held in memory.
pub struct ReportModel {
    pub collections: Seq<VerifyModel>,
    pub errors: Seq<Seq<char>>,
    pub warnings: Seq<Seq<char>>,
}

/// Results as they are.
pub open spec fn result_models(v: Seq<CollectionVerify>) -> Seq<VerifyModel> {
    v.map_values(|c: CollectionVerify| c@)
}

/// Checks as they are.
pub open spec fn check_models(v: Seq<CollectionCheck>) -> Seq<CheckModel> {
    v.map_values(|c: CollectionCheck| c@)
}

impl View for VerifyReport {
    type V = ReportModel;

    open spec fn view(&self) -> ReportModel {
        ReportModel {
            collections: result_models(self.collections@),
            errors: error::texts(self.errors@),
            warnings: error::texts(self.warnings@),
        }
    }
}

/// What a wrong count of live documents is reported as.
pub open spec fn live_text(name: Seq<char>, manifest: u64, held: u64) -> Seq<char> {
    name + ": manifest says "@ + text::decimal(manifest as nat) + " live documents, segments hold "@
        + text::decimal(held as nat)
}

/// What a wrong count of rows is reported as.
pub open spec fn rows_text(name: Seq<char>, manifest: u64, held: u64) -> Seq<char> {
    name + ": manifest says "@ + text::decimal(manifest as nat) + " rows, segments hold "@
        + text::decimal(held as nat)
}

/// What a directory that nothing names is reported as.
pub open spec fn unnamed_text(name: Seq<char>) -> Seq<char> {
    "collections/"@ + name + " is on disk but named by no manifest"@
}

/// A report with one more collection: what it reported by itself, then where the manifest's counts
/// are stale. The counts are a cache of what the segments hold. A wrong count of live documents is
/// odd; a wrong count of rows is damage.
pub open spec fn with_check(r: ReportModel, e: EntryModel, c: CheckModel) -> ReportModel {
    let warnings = r.warnings + c.warnings;
    let errors = r.errors + c.errors;
    ReportModel {
        collections: r.collections.push(c.result),
        warnings: if e.live_count != c.result.live_documents {
            warnings.push(live_text(e.name, e.live_count, c.result.live_documents))
        } else {
            warnings
        },
        errors: if e.total_rows != c.result.total_rows {
            errors.push(rows_text(e.name, e.total_rows, c.result.total_rows))
        } else {
            errors
        },
    }
}

/// The report on collections, without the directory listing.
pub open spec fn checked(es: Seq<EntryModel>, cs: Seq<CheckModel>) -> ReportModel
    decreases es.len(),
{
    if es.len() == 0 {
        ReportModel { collections: Seq::empty(), errors: Seq::empty(), warnings: Seq::empty() }
    } else {
        with_check(checked(es.drop_last(), cs.drop_last()), es.last(), cs.last())
    }
}

/// Whether a manifest names a collection.
pub open spec fn names(es: Seq<EntryModel>, name: Seq<char>) -> bool {
    exists|i: int| 0 <= i < es.len() && (#[trigger] es[i]).name == name
}

/// The warnings for directories that nothing names, in order.
pub open spec fn unnamed_warnings(es: Seq<EntryModel>, listed: Seq<Seq<char>>) -> Seq<Seq<char>>
    decreases listed.len(),
{
    if listed.len() == 0 {
        Seq::empty()
    } else {
        let before = unnamed_warnings(es, listed.drop_last());
        if names(es, listed.last()) {
            before
        } else {
            before.push(unnamed_text(listed.last()))
        }
    }
}

/// The whole report.
pub open spec fn reported(es: Seq<EntryModel>, cs: Seq<CheckModel>, listed: Seq<Seq<char>>) -> ReportModel {
    let r = checked(es, cs);
    ReportModel { warnings: r.warnings + unnamed_warnings(es, listed), ..r }
}

fn append_texts(out: &mut Vec<String>, more: Vec<String>)
    ensures
        error::texts(final(out)@) == error::texts(old(out)@) + error::texts(more@),
{
    let ghost all = error::texts(more@);
    let ghost start = error::texts(out@);
    let mut i: usize = 0;
    assert(error::texts(out@) =~= start + all.take(0));
    while i < more.len()
        invariant
            i <= more@.len(),
            all == error::texts(more@),
            error::texts(out@) == start + all.take(i as int),
        decreases more.len() - i,
    {
        let ghost before = out@;
        let t: String = more[i].clone();
        out.push(t);
        proof {
            assert(all.take(i + 1) =~= all.take(i as int).push(all[i as int]));
            assert(error::texts(out@) =~= error::texts(before).push(t@));
            assert(error::texts(out@) =~= start + all.take(i + 1));
        }
        i += 1;
    }
    assert(all.take(i as int) =~= all);
}

fn count_message(name: &str, manifest: u64, what: &str, held: u64) -> (r: String)
    ensures
        r@ == name@ + ": manifest says "@ + text::decimal(manifest as nat) + what@ + text::decimal(
            held as nat,
        ),
{
    let mut out = name.to_owned();
    out.append(": manifest says ");
    text::push_decimal(&mut out, manifest);
    out.append(what);
    text::push_decimal(&mut out, held);
    out
}

fn is_named(entries: &Vec<CollectionEntry>, name: &str) -> (r: bool)
    ensures
        r == names(manifest::entry_models(entries@), name@),
{
    let ghost es = manifest::entry_models(entries@);
    let mut i: usize = 0;
    while i < entries.len()
        invariant
            i <= entries@.len(),
            es == manifest::entry_models(entries@),
            forall|k: int| 0 <= k < i ==> (#[trigger] es[k]).name != name@,
        decreases entries.len() - i,
    {
        assert(es[i as int].name == entries@[i as int].name@);
        if bytes::same_str(entries[i].name.as_str(), name) {
            return true;
        }
        i += 1;
    }
    false
}

/// Put together what checking each collection gave, in the manifest's order, and what the
/// collections directory lists.
///
/// Stopping at the first fault would leave the caller unable to tell a single bad block from a
/// wholly lost database.
pub fn report(
    level: VerifyLevel,
    entries: &Vec<CollectionEntry>,
    checks: Vec<CollectionCheck>,
    listed: &Vec<String>,
) -> (r: VerifyReport)
    requires
        checks@.len() == entries@.len(),
    ensures
        r.level == level,
        r@ == reported(
            manifest::entry_models(entries@),
            check_models(checks@),
            error::texts(listed@),
        ),
{
    let ghost es = manifest::entry_models(entries@);
    let ghost cs = check_models(checks@);
    let ghost all = checks@;
    let mut rest = checks;
    let mut out = VerifyReport {
        level,
        collections: Vec::new(),
        errors: Vec::new(),
        warnings: Vec::new(),
    };
    let mut i: usize = 0;
    proof {
        assert(es.take(0) =~= Seq::<EntryModel>::empty());
        assert(out@.collections =~= Seq::<VerifyModel>::empty());
        assert(out@.errors =~= Seq::<Seq<char>>::empty());
        assert(out@.warnings =~= Seq::<Seq<char>>::empty());
        assert(rest@ =~= all.skip(0));
    }
    while i < entries.len()
        invariant
            i <= entries@.len(),
            all.len() == entries@.len(),
            rest@ == all.skip(i as int),
            es == manifest::entry_models(entries@),
            cs == check_models(all),
            out.level == level,
            out@ == checked(es.take(i as int), cs.take(i as int)),
        decreases entries.len() - i,
    {
        let entry = &entries[i];
        let ghost before = out@;
        proof {
            assert(es.take(i + 1).drop_last() =~= es.take(i as int));
            assert(cs.take(i + 1).drop_last() =~= cs.take(i as int));
            assert(es.take(i + 1).last() == entry@);
            assert(cs.take(i + 1).last() == all[i as int]@);
            assert(rest@[0] == all[i as int]);
        }
        let check: CollectionCheck = rest.remove(0);
        assert(rest@ =~= all.skip(i + 1));
        let result = check.result;
        let ghost found = result@;
        append_texts(&mut out.warnings, check.warnings);
        append_texts(&mut out.errors, check.errors);
        if entry.live_count != result.live_documents {
            let t = count_message(
                entry.name.as_str(),
                entry.live_count,
                " live documents, segments hold ",
                result.live_documents,
            );
            let ghost was = out.warnings@;
            out.warnings.push(t);
            assert(error::texts(out.warnings@) =~= error::texts(was).push(t@));
        }
        if entry.total_rows != result.total_rows {
            let t = count_message(
                entry.name.as_str(),
                entry.total_rows,
                " rows, segments hold ",
                result.total_rows,
            );
            let ghost was = out.errors@;
            out.errors.push(t);
            assert(error::texts(out.errors@) =~= error::texts(was).push(t@));
        }
        let ghost was = out.collections@;
        out.collections.push(result);
        assert(result_models(out.collections@) =~= result_models(was).push(found));
        i += 1;
    }
    proof {
        assert(es.take(i as int) =~= es);
        assert(cs.take(i as int) =~= cs);
    }
    let ghost so_far = out@;
    let ghost dirs = error::texts(listed@);
    let mut j: usize = 0;
    proof {
        assert(dirs.take(0) =~= Seq::<Seq<char>>::empty());
        assert(so_far.warnings + unnamed_warnings(es, dirs.take(0)) =~= so_far.warnings);
    }
    while j < listed.len()
        invariant
            j <= listed@.len(),
            es == manifest::entry_models(entries@),
            dirs == error::texts(listed@),
            out.level == level,
            out@ == (ReportModel {
                warnings: so_far.warnings + unnamed_warnings(es, dirs.take(j as int)),
                ..so_far
            }),
        decreases listed.len() - j,
    {
        let name: &str = listed[j].as_str();
        proof {
            assert(dirs.take(j + 1).drop_last() =~= dirs.take(j as int));
            assert(dirs.take(j + 1).last() == name@);
        }
        if !is_named(entries, name) {
            let mut t = "collections/".to_owned();
            t.append(name);
            t.append(" is on disk but named by no manifest");
            let ghost was = out.warnings@;
            out.warnings.push(t);
            proof {
                assert(error::texts(out.warnings@) =~= error::texts(was).push(t@));
                assert(out@.warnings =~= so_far.warnings + unnamed_warnings(
                    es,
                    dirs.take(j + 1),
                ));
            }
        }
        j += 1;
    }
    assert(dirs.take(j as int) =~= dirs);
    out
}

/// A report on a database whose counts are right, whose collections are sound and whose
/// directories are all named is clean.
pub proof fn lemma_sound_database_reports_nothing(
    es: Seq<EntryModel>,
    cs: Seq<CheckModel>,
    listed: Seq<Seq<char>>,
)
    requires
        cs.len() == es.len(),
        forall|i: int|
            0 <= i < es.len() ==> (#[trigger] cs[i]).errors.len() == 0 && cs[i].warnings.len() == 0
                && es[i].live_count == cs[i].result.live_documents && es[i].total_rows
                == cs[i].result.total_rows,
        forall|i: int| 0 <= i < listed.len() ==> names(es, #[trigger] listed[i]),
    ensures
        reported(es, cs, listed).errors.len() == 0,
        reported(es, cs, listed).warnings.len() == 0,
        reported(es, cs, listed).collections.len() == es.len(),
{
    lemma_checked_sound(es, cs);
    lemma_all_named(es, listed);
}

proof fn lemma_checked_sound(es: Seq<EntryModel>, cs: Seq<CheckModel>)
    requires
        cs.len() == es.len(),
        forall|i: int|
            0 <= i < es.len() ==> (#[trigger] cs[i]).errors.len() == 0 && cs[i].warnings.len() == 0
                && es[i].live_count == cs[i].result.live_documents && es[i].total_rows
                == cs[i].result.total_rows,
    ensures
        checked(es, cs).errors.len() == 0,
        checked(es, cs).warnings.len() == 0,
        checked(es, cs).collections.len() == es.len(),
    decreases es.len(),
{
    if es.len() > 0 {
        let ef = es.drop_last();
        let cf = cs.drop_last();
        assert forall|i: int| 0 <= i < ef.len() implies (#[trigger] cf[i]).errors.len() == 0
            && cf[i].warnings.len() == 0 && ef[i].live_count == cf[i].result.live_documents
            && ef[i].total_rows == cf[i].result.total_rows by {
            assert(cf[i] == cs[i]);
        }
        lemma_checked_sound(ef, cf);
        assert(cs[cs.len() - 1].errors.len() == 0);
    }
}

proof fn lemma_all_named(es: Seq<EntryModel>, listed: Seq<Seq<char>>)
    requires
        forall|i: int| 0 <= i < listed.len() ==> names(es, #[trigger] listed[i]),
    ensures
        unnamed_warnings(es, listed).len() == 0,
    decreases listed.len(),
{
    if listed.len() > 0 {
        let front = listed.drop_last();
        assert forall|i: int| 0 <= i < front.len() implies names(es, #[trigger] front[i]) by {
            assert(front[i] == listed[i]);
        }
        lemma_all_named(es, front);
        assert(names(es, listed[listed.len() - 1]));
    }
}

} // verus!
