//! The merger: descriptor files, grouped into precedence-ordered tiers, are
//! parsed, patched by the override store, deduplicated by name with later
//! tiers winning, and sorted ascending by name.

use vstd::prelude::*;

use crate::config::{
    lemma_patch_remove_absent, patch_lookup, patch_remove, Config, PatchView,
};
use crate::entry::{
    parse_entry_bytes, parse_entry_spec, parsed_sections, Application, ApplicationView,
};
use crate::strings::{lemma_lex_le_total, lemma_lex_le_trans, lex_le, str_eq, str_le};

verus! {

/// One descriptor file handed to the merger: where it came from and what it
/// holds.
#[derive(Debug, Clone)]
pub struct DesktopFile {
    /// The file's path; the key under which override patches apply.
    pub path: String,
    /// The file's bytes.
    pub contents: Vec<u8>,
}

/// The mathematical shape of a [`DesktopFile`].
pub struct DesktopFileView {
    /// Characters of the path.
    pub path: Seq<char>,
    /// The bytes.
    pub contents: Seq<u8>,
}

impl View for DesktopFile {
    type V = DesktopFileView;

    open spec fn view(&self) -> DesktopFileView {
        DesktopFileView { path: self.path@, contents: self.contents@ }
    }
}

/// The views of a file list.
pub open spec fn files_view(fs: Seq<DesktopFile>) -> Seq<DesktopFileView> {
    fs.map_values(|f: DesktopFile| f@)
}

/// The views of the tiers, each a file list.
pub open spec fn tiers_view(ts: Seq<Vec<DesktopFile>>) -> Seq<Seq<DesktopFileView>> {
    ts.map_values(|t: Vec<DesktopFile>| files_view(t@))
}

/// The views of a record list.
pub open spec fn apps_view(rs: Seq<Application>) -> Seq<ApplicationView> {
    rs.map_values(|a: Application| a@)
}

/// The view of the optional user tier.
pub open spec fn user_view(u: Option<Vec<DesktopFile>>) -> Option<Seq<DesktopFileView>> {
    match u {
        None => None,
        Some(t) => Some(files_view(t@)),
    }
}

/// The working collection with one record inserted: a record whose name is
/// already present replaces the first such record in place; a new name is
/// appended.
pub open spec fn upsert(rs: Seq<ApplicationView>, a: ApplicationView) -> Seq<ApplicationView>
    decreases rs.len(),
{
    if rs.len() == 0 {
        seq![a]
    } else if rs[0].name == a.name {
        seq![a] + rs.drop_first()
    } else {
        seq![rs[0]] + upsert(rs.drop_first(), a)
    }
}

/// The working state of a merge pass: the collection gathered so far and the
/// override patches not yet consumed.
pub open spec fn merge_file(
    st: (Seq<ApplicationView>, Seq<(Seq<char>, PatchView)>),
    f: DesktopFileView,
) -> (Seq<ApplicationView>, Seq<(Seq<char>, PatchView)>) {
    match parsed_sections(f.contents) {
        None => st,
        Some(ss) => match parse_entry_spec(ss) {
            Err(_) => st,
            Ok(None) => st,
            Ok(Some(app)) => match patch_lookup(st.1, f.path) {
                None => (upsert(st.0, app), st.1),
                Some(p) => (
                    upsert(
                        st.0,
                        ApplicationView {
                            name: app.name,
                            desc: app.desc,
                            command: p.command,
                            path: app.path,
                            actions: app.actions,
                        },
                    ),
                    patch_remove(st.1, f.path),
                ),
            },
        },
    }
}

/// A tier's files merged in order, one file at a time; a file that does not
/// parse, or whose entry is suppressed or rejected, changes nothing.
pub open spec fn merge_files(
    st: (Seq<ApplicationView>, Seq<(Seq<char>, PatchView)>),
    fs: Seq<DesktopFileView>,
) -> (Seq<ApplicationView>, Seq<(Seq<char>, PatchView)>)
    decreases fs.len(),
{
    if fs.len() == 0 {
        st
    } else {
        merge_files(merge_file(st, fs[0]), fs.drop_first())
    }
}

/// All tiers merged in precedence order: records from later tiers replace
/// same-named records from earlier ones.
pub open spec fn merge_tiers(
    st: (Seq<ApplicationView>, Seq<(Seq<char>, PatchView)>),
    ts: Seq<Seq<DesktopFileView>>,
) -> (Seq<ApplicationView>, Seq<(Seq<char>, PatchView)>)
    decreases ts.len(),
{
    if ts.len() == 0 {
        st
    } else {
        merge_tiers(merge_files(st, ts[0]), ts.drop_first())
    }
}

/// A record placed before the first record whose name is at least its own.
pub open spec fn insert_sorted(a: ApplicationView, rs: Seq<ApplicationView>) -> Seq<
    ApplicationView,
>
    decreases rs.len(),
{
    if rs.len() == 0 {
        seq![a]
    } else if lex_le(a.name, rs[0].name) {
        seq![a] + rs
    } else {
        seq![rs[0]] + insert_sorted(a, rs.drop_first())
    }
}

/// Insertion sort by name, taking the records in order.
pub open spec fn sort_acc(acc: Seq<ApplicationView>, rs: Seq<ApplicationView>) -> Seq<
    ApplicationView,
>
    decreases rs.len(),
{
    if rs.len() == 0 {
        acc
    } else {
        sort_acc(insert_sorted(rs[0], acc), rs.drop_first())
    }
}

/// The records sorted ascending by name, comparing code points.
pub open spec fn sort_by_name(rs: Seq<ApplicationView>) -> Seq<ApplicationView> {
    sort_acc(Seq::empty(), rs)
}

/// What a full index build returns: the system tiers merged in their given
/// order, then the user tier if present, the result sorted ascending by name;
/// beside it, the override patches that no file consumed.
pub open spec fn load_apps_spec(
    tiers: Seq<Seq<DesktopFileView>>,
    user: Option<Seq<DesktopFileView>>,
    overrides: Seq<(Seq<char>, PatchView)>,
) -> (Seq<ApplicationView>, Seq<(Seq<char>, PatchView)>) {
    let all = match user {
        None => tiers,
        Some(u) => tiers.push(u),
    };
    let st = merge_tiers((Seq::empty(), overrides), all);
    (sort_by_name(st.0), st.1)
}

/// A record list sorted ascending by name under the code-point order.
pub open spec fn sorted_by_name(rs: Seq<ApplicationView>) -> bool {
    forall|i: int, j: int|
        0 <= i < j < rs.len() ==> lex_le((#[trigger] rs[i]).name, (#[trigger] rs[j]).name)
}

/// The position where a record sorts into a list: the first index whose
/// record's name is at least the given record's.
pub open spec fn first_ge(a: ApplicationView, rs: Seq<ApplicationView>) -> int
    decreases rs.len(),
{
    if rs.len() == 0 {
        0
    } else if lex_le(a.name, rs[0].name) {
        0
    } else {
        1 + first_ge(a, rs.drop_first())
    }
}

proof fn lemma_first_ge_props(a: ApplicationView, rs: Seq<ApplicationView>)
    ensures
        0 <= first_ge(a, rs) <= rs.len(),
        forall|m: int| 0 <= m < first_ge(a, rs) ==> !lex_le(a.name, (#[trigger] rs[m]).name),
        first_ge(a, rs) < rs.len() ==> lex_le(a.name, rs[first_ge(a, rs)].name),
    decreases rs.len(),
{
    if rs.len() == 0 {
    } else if lex_le(a.name, rs[0].name) {
    } else {
        let tail = rs.drop_first();
        lemma_first_ge_props(a, tail);
        assert forall|m: int| 0 <= m < first_ge(a, rs) implies !lex_le(
            a.name,
            (#[trigger] rs[m]).name,
        ) by {
            if m > 0 {
                assert(rs[m] == tail[m - 1]);
            }
        }
        if first_ge(a, rs) < rs.len() {
            assert(rs[first_ge(a, rs)] == tail[first_ge(a, tail)]);
        }
    }
}

proof fn lemma_insert_sorted_sorted(a: ApplicationView, rs: Seq<ApplicationView>)
    requires
        sorted_by_name(rs),
    ensures
        sorted_by_name(insert_sorted(a, rs)),
{
    let j = first_ge(a, rs);
    lemma_first_ge_props(a, rs);
    lemma_insert_sorted_at(rs, a, j);
    let out = rs.insert(j, a);
    assert forall|p: int, q: int| 0 <= p < q < out.len() implies lex_le(
        (#[trigger] out[p]).name,
        (#[trigger] out[q]).name,
    ) by {
        if p < j && q == j {
            lemma_lex_le_total(a.name, rs[p].name);
        } else if p == j && q > j {
            if j < rs.len() {
                if q - 1 > j {
                    lemma_lex_le_trans(a.name, rs[j].name, rs[q - 1].name);
                }
            }
        } else if p < j && q > j {
            assert(out[p] == rs[p] && out[q] == rs[q - 1]);
        }
    }
}

proof fn lemma_sort_acc_sorted(acc: Seq<ApplicationView>, rs: Seq<ApplicationView>)
    requires
        sorted_by_name(acc),
    ensures
        sorted_by_name(sort_acc(acc, rs)),
    decreases rs.len(),
{
    if rs.len() == 0 {
    } else {
        lemma_insert_sorted_sorted(rs[0], acc);
        lemma_sort_acc_sorted(insert_sorted(rs[0], acc), rs.drop_first());
    }
}

/// The collection a build returns is sorted ascending by name.
pub proof fn lemma_load_apps_sorted(
    tiers: Seq<Seq<DesktopFileView>>,
    user: Option<Seq<DesktopFileView>>,
    overrides: Seq<(Seq<char>, PatchView)>,
)
    ensures
        sorted_by_name(load_apps_spec(tiers, user, overrides).0),
{
    let all = match user {
        None => tiers,
        Some(u) => tiers.push(u),
    };
    let st = merge_tiers((Seq::empty(), overrides), all);
    lemma_sort_acc_sorted(Seq::empty(), st.0);
}

/// Rebuilding is idempotent: the index is a function of the tiers, the user
/// tier and the overrides alone, so two builds over an unchanged file set and
/// override store yield equal collections and equal leftover patches.
pub proof fn lemma_load_apps_idempotent(
    tiers1: Seq<Seq<DesktopFileView>>,
    user1: Option<Seq<DesktopFileView>>,
    overrides1: Seq<(Seq<char>, PatchView)>,
    tiers2: Seq<Seq<DesktopFileView>>,
    user2: Option<Seq<DesktopFileView>>,
    overrides2: Seq<(Seq<char>, PatchView)>,
)
    requires
        tiers1 == tiers2,
        user1 == user2,
        overrides1 == overrides2,
    ensures
        load_apps_spec(tiers1, user1, overrides1) == load_apps_spec(tiers2, user2, overrides2),
{
}

/// No two records of the list share a name.
pub open spec fn unique_names(rs: Seq<ApplicationView>) -> bool {
    forall|i: int, j: int|
        0 <= i < j < rs.len() ==> (#[trigger] rs[i]).name != (#[trigger] rs[j]).name
}

/// Some record of the list carries the given name.
pub open spec fn name_in(rs: Seq<ApplicationView>, n: Seq<char>) -> bool {
    exists|m: int| 0 <= m < rs.len() && (#[trigger] rs[m]).name == n
}

proof fn lemma_upsert_names(rs: Seq<ApplicationView>, a: ApplicationView)
    ensures
        forall|k: int|
            0 <= k < upsert(rs, a).len() ==> (#[trigger] upsert(rs, a)[k]).name == a.name
                || name_in(rs, upsert(rs, a)[k].name),
    decreases rs.len(),
{
    if rs.len() == 0 {
    } else if rs[0].name == a.name {
        let out = seq![a] + rs.drop_first();
        assert forall|k: int| 0 <= k < out.len() implies (#[trigger] out[k]).name == a.name
            || name_in(rs, out[k].name) by {
            if k > 0 {
                assert(out[k] == rs[k]);
                assert(name_in(rs, rs[k].name));
            }
        }
    } else {
        let tail = rs.drop_first();
        lemma_upsert_names(tail, a);
        let out = seq![rs[0]] + upsert(tail, a);
        assert forall|k: int| 0 <= k < out.len() implies (#[trigger] out[k]).name == a.name
            || name_in(rs, out[k].name) by {
            if k == 0 {
                assert(name_in(rs, rs[0].name));
            } else {
                assert(out[k] == upsert(tail, a)[k - 1]);
                if out[k].name != a.name {
                    let m = choose|m: int|
                        0 <= m < tail.len() && (#[trigger] tail[m]).name == out[k].name;
                    assert(rs[m + 1] == tail[m]);
                    assert(name_in(rs, out[k].name));
                }
            }
        }
    }
}

proof fn lemma_upsert_unique(rs: Seq<ApplicationView>, a: ApplicationView)
    requires
        unique_names(rs),
    ensures
        unique_names(upsert(rs, a)),
    decreases rs.len(),
{
    if rs.len() == 0 {
    } else if rs[0].name == a.name {
        let out = seq![a] + rs.drop_first();
        assert forall|i: int, j: int| 0 <= i < j < out.len() implies (#[trigger] out[i]).name != (
        #[trigger] out[j]).name by {
            if i == 0 {
                assert(out[j] == rs[j]);
            } else {
                assert(out[i] == rs[i] && out[j] == rs[j]);
            }
        }
    } else {
        let tail = rs.drop_first();
        assert(unique_names(tail)) by {
            assert forall|i: int, j: int| 0 <= i < j < tail.len() implies (#[trigger] tail[i]).name
                != (#[trigger] tail[j]).name by {
                assert(tail[i] == rs[i + 1] && tail[j] == rs[j + 1]);
            }
        }
        lemma_upsert_unique(tail, a);
        lemma_upsert_names(tail, a);
        let out = seq![rs[0]] + upsert(tail, a);
        assert forall|i: int, j: int| 0 <= i < j < out.len() implies (#[trigger] out[i]).name != (
        #[trigger] out[j]).name by {
            if i == 0 {
                assert(out[j] == upsert(tail, a)[j - 1]);
                if out[j].name == a.name {
                } else {
                    let m = choose|m: int|
                        0 <= m < tail.len() && (#[trigger] tail[m]).name == out[j].name;
                    assert(rs[m + 1] == tail[m]);
                }
            } else {
                assert(out[i] == upsert(tail, a)[i - 1] && out[j] == upsert(tail, a)[j - 1]);
            }
        }
    }
}

proof fn lemma_merge_files_unique(
    st: (Seq<ApplicationView>, Seq<(Seq<char>, PatchView)>),
    fs: Seq<DesktopFileView>,
)
    requires
        unique_names(st.0),
    ensures
        unique_names(merge_files(st, fs).0),
    decreases fs.len(),
{
    if fs.len() == 0 {
    } else {
        let st2 = merge_file(st, fs[0]);
        assert(unique_names(st2.0)) by {
            match parsed_sections(fs[0].contents) {
                None => {},
                Some(ss) => match parse_entry_spec(ss) {
                    Err(_) => {},
                    Ok(None) => {},
                    Ok(Some(app)) => match patch_lookup(st.1, fs[0].path) {
                        None => {
                            lemma_upsert_unique(st.0, app);
                        },
                        Some(p) => {
                            lemma_upsert_unique(
                                st.0,
                                ApplicationView {
                                    name: app.name,
                                    desc: app.desc,
                                    command: p.command,
                                    path: app.path,
                                    actions: app.actions,
                                },
                            );
                        },
                    },
                },
            }
        }
        lemma_merge_files_unique(st2, fs.drop_first());
    }
}

proof fn lemma_merge_tiers_unique(
    st: (Seq<ApplicationView>, Seq<(Seq<char>, PatchView)>),
    ts: Seq<Seq<DesktopFileView>>,
)
    requires
        unique_names(st.0),
    ensures
        unique_names(merge_tiers(st, ts).0),
    decreases ts.len(),
{
    if ts.len() == 0 {
    } else {
        lemma_merge_files_unique(st, ts[0]);
        lemma_merge_tiers_unique(merge_files(st, ts[0]), ts.drop_first());
    }
}

proof fn lemma_insert_sorted_unique(a: ApplicationView, rs: Seq<ApplicationView>)
    requires
        unique_names(rs),
        !name_in(rs, a.name),
    ensures
        unique_names(insert_sorted(a, rs)),
        forall|k: int|
            0 <= k < insert_sorted(a, rs).len() ==> (#[trigger] insert_sorted(a, rs)[k]).name
                == a.name || name_in(rs, insert_sorted(a, rs)[k].name),
{
    let j = first_ge(a, rs);
    lemma_first_ge_props(a, rs);
    lemma_insert_sorted_at(rs, a, j);
    let out = rs.insert(j, a);
    rs.insert_ensures(j, a);
    assert forall|i: int, k: int| 0 <= i < k < out.len() implies (#[trigger] out[i]).name != (
    #[trigger] out[k]).name by {
        if i < j && k == j {
            assert(out[i] == rs[i]);
            assert(name_in(rs, rs[i].name));
        } else if i == j && k > j {
            assert(out[k] == rs[k - 1]);
            assert(name_in(rs, rs[k - 1].name));
        } else if i < j && k > j {
            assert(out[i] == rs[i] && out[k] == rs[k - 1]);
        } else if i < j && k < j {
            assert(out[i] == rs[i] && out[k] == rs[k]);
        } else {
            assert(out[i] == rs[i - 1] && out[k] == rs[k - 1]);
        }
    }
    assert forall|k: int| 0 <= k < out.len() implies (#[trigger] out[k]).name == a.name || name_in(
        rs,
        out[k].name,
    ) by {
        if k < j {
            assert(out[k] == rs[k]);
            assert(name_in(rs, rs[k].name));
        } else if k > j {
            assert(out[k] == rs[k - 1]);
            assert(name_in(rs, rs[k - 1].name));
        }
    }
}

proof fn lemma_sort_acc_unique(acc: Seq<ApplicationView>, rs: Seq<ApplicationView>)
    requires
        unique_names(acc),
        unique_names(rs),
        forall|m: int, k: int|
            0 <= m < acc.len() && 0 <= k < rs.len() ==> (#[trigger] acc[m]).name != (
            #[trigger] rs[k]).name,
    ensures
        unique_names(sort_acc(acc, rs)),
    decreases rs.len(),
{
    if rs.len() == 0 {
    } else {
        let a = rs[0];
        let tail = rs.drop_first();
        assert(!name_in(acc, a.name)) by {
            if name_in(acc, a.name) {
                let m = choose|m: int| 0 <= m < acc.len() && (#[trigger] acc[m]).name == a.name;
                assert(acc[m].name != rs[0].name);
            }
        }
        lemma_insert_sorted_unique(a, acc);
        let acc2 = insert_sorted(a, acc);
        assert(unique_names(tail)) by {
            assert forall|i: int, j: int| 0 <= i < j < tail.len() implies (#[trigger] tail[i]).name
                != (#[trigger] tail[j]).name by {
                assert(tail[i] == rs[i + 1] && tail[j] == rs[j + 1]);
            }
        }
        assert forall|m: int, k: int|
            0 <= m < acc2.len() && 0 <= k < tail.len() implies (#[trigger] acc2[m]).name != (
        #[trigger] tail[k]).name by {
            assert(tail[k] == rs[k + 1]);
            if acc2[m].name == a.name {
                assert(rs[0].name != rs[k + 1].name);
            } else {
                let w = choose|w: int| 0 <= w < acc.len() && (#[trigger] acc[w]).name == acc2[m].name;
                assert(acc[w].name != rs[k + 1].name);
            }
        }
        lemma_sort_acc_unique(acc2, tail);
    }
}

/// The collection a build returns is deduplicated: no two records share a
/// name.
pub proof fn lemma_load_apps_unique(
    tiers: Seq<Seq<DesktopFileView>>,
    user: Option<Seq<DesktopFileView>>,
    overrides: Seq<(Seq<char>, PatchView)>,
)
    ensures
        unique_names(load_apps_spec(tiers, user, overrides).0),
{
    let all = match user {
        None => tiers,
        Some(u) => tiers.push(u),
    };
    let st = merge_tiers((Seq::empty(), overrides), all);
    lemma_merge_tiers_unique((Seq::empty(), overrides), all);
    lemma_sort_acc_unique(Seq::empty(), st.0);
}

proof fn lemma_upsert_at(rs: Seq<ApplicationView>, a: ApplicationView, j: int)
    requires
        0 <= j < rs.len(),
        rs[j].name == a.name,
        forall|m: int| 0 <= m < j ==> (#[trigger] rs[m]).name != a.name,
    ensures
        upsert(rs, a) == rs.update(j, a),
    decreases j,
{
    if j == 0 {
        assert(seq![a] + rs.drop_first() =~= rs.update(0, a));
    } else {
        let tail = rs.drop_first();
        assert forall|m: int| 0 <= m < j - 1 implies (#[trigger] tail[m]).name != a.name by {
            assert(tail[m] == rs[m + 1]);
        }
        assert(tail[j - 1] == rs[j]);
        lemma_upsert_at(tail, a, j - 1);
        assert(seq![rs[0]] + tail.update(j - 1, a) =~= rs.update(j, a));
    }
}

proof fn lemma_upsert_absent(rs: Seq<ApplicationView>, a: ApplicationView)
    requires
        forall|m: int| 0 <= m < rs.len() ==> (#[trigger] rs[m]).name != a.name,
    ensures
        upsert(rs, a) == rs.push(a),
    decreases rs.len(),
{
    if rs.len() == 0 {
        assert(seq![a] =~= rs.push(a));
    } else {
        let tail = rs.drop_first();
        assert forall|m: int| 0 <= m < tail.len() implies (#[trigger] tail[m]).name != a.name by {
            assert(tail[m] == rs[m + 1]);
        }
        lemma_upsert_absent(tail, a);
        assert(seq![rs[0]] + tail.push(a) =~= rs.push(a));
    }
}

fn merge_into(working: &mut Vec<Application>, app: Application)
    ensures
        apps_view(final(working)@) == upsert(apps_view(old(working)@), app@),
{
    let ghost full = apps_view(working@);
    let n = working.len();
    let mut j: usize = 0;
    proof {
        assert(full.len() == n);
    }
    while j < n
        invariant
            j <= n,
            n == working@.len(),
            working@ == old(working)@,
            full == apps_view(working@),
            full.len() == n,
            forall|m: int| 0 <= m < j ==> (#[trigger] full[m]).name != app@.name,
        decreases n - j,
    {
        proof {
            assert(full[j as int] == working@[j as int]@);
        }
        if str_eq(working[j].name.as_str(), app.name.as_str()) {
            let ghost av = app@;
            working.set(j, app);
            proof {
                lemma_upsert_at(full, av, j as int);
                assert(apps_view(working@) =~= full.update(j as int, av));
            }
            return ;
        }
        j = j + 1;
    }
    let ghost av = app@;
    working.push(app);
    proof {
        lemma_upsert_absent(full, av);
        assert(apps_view(working@) =~= full.push(av));
    }
}

fn apply_file(working: &mut Vec<Application>, overrides: &mut Config, file: &DesktopFile)
    ensures
        (apps_view(final(working)@), final(overrides)@) == merge_file(
            (apps_view(old(working)@), old(overrides)@),
            file@,
        ),
{
    let ghost st0 = (apps_view(working@), overrides@);
    match parse_entry_bytes(file.contents.as_slice()) {
        Err(_) => {},
        Ok(None) => {},
        Ok(Some(mut app)) => {
            match overrides.remove(file.path.as_str()) {
                None => {
                    proof {
                        lemma_patch_remove_absent(st0.1, file@.path);
                    }
                },
                Some(p) => {
                    app.command = p.command;
                },
            }
            merge_into(working, app);
        },
    }
}

fn apply_tier(working: &mut Vec<Application>, overrides: &mut Config, files: &Vec<DesktopFile>)
    ensures
        (apps_view(final(working)@), final(overrides)@) == merge_files(
            (apps_view(old(working)@), old(overrides)@),
            files_view(files@),
        ),
{
    let ghost full = files_view(files@);
    let ghost st0 = (apps_view(working@), overrides@);
    let n = files.len();
    let mut i: usize = 0;
    proof {
        assert(full.skip(0) =~= full);
        assert(full.len() == n);
    }
    while i < n
        invariant
            i <= n,
            n == files@.len(),
            full == files_view(files@),
            full.len() == n,
            merge_files(st0, full) == merge_files(
                (apps_view(working@), overrides@),
                full.skip(i as int),
            ),
        decreases n - i,
    {
        let ghost rem = full.skip(i as int);
        proof {
            assert(rem.len() > 0 && rem[0] == full[i as int] && full[i as int]
                == files@[i as int]@);
            assert(rem.drop_first() =~= full.skip(i + 1));
        }
        apply_file(working, overrides, &files[i]);
        i = i + 1;
    }
    proof {
        assert(full.skip(n as int) =~= Seq::<DesktopFileView>::empty());
    }
}

proof fn lemma_insert_sorted_at(rs: Seq<ApplicationView>, a: ApplicationView, j: int)
    requires
        0 <= j <= rs.len(),
        forall|m: int| 0 <= m < j ==> !lex_le(a.name, (#[trigger] rs[m]).name),
        j < rs.len() ==> lex_le(a.name, rs[j].name),
    ensures
        insert_sorted(a, rs) == rs.insert(j, a),
    decreases j,
{
    if j == 0 {
        if rs.len() == 0 {
            assert(seq![a] =~= rs.insert(0, a));
        } else {
            assert(seq![a] + rs =~= rs.insert(0, a));
        }
    } else {
        let tail = rs.drop_first();
        assert forall|m: int| 0 <= m < j - 1 implies !lex_le(a.name, (#[trigger] tail[m]).name) by {
            assert(tail[m] == rs[m + 1]);
        }
        if j - 1 < tail.len() {
            assert(tail[j - 1] == rs[j]);
        }
        lemma_insert_sorted_at(tail, a, j - 1);
        assert(seq![rs[0]] + tail.insert(j - 1, a) =~= rs.insert(j, a));
    }
}

fn insert_by_name(out: &mut Vec<Application>, app: Application)
    ensures
        apps_view(final(out)@) == insert_sorted(app@, apps_view(old(out)@)),
{
    let ghost full = apps_view(out@);
    let n = out.len();
    let mut j: usize = 0;
    proof {
        assert(full.len() == n);
    }
    while j < n
        invariant
            j <= n,
            n == out@.len(),
            out@ == old(out)@,
            full == apps_view(out@),
            full.len() == n,
            forall|m: int| 0 <= m < j ==> !lex_le(app@.name, (#[trigger] full[m]).name),
        decreases n - j,
    {
        proof {
            assert(full[j as int] == out@[j as int]@);
        }
        if str_le(app.name.as_str(), out[j].name.as_str()) {
            let ghost av = app@;
            out.insert(j, app);
            proof {
                lemma_insert_sorted_at(full, av, j as int);
            }
            return ;
        }
        j = j + 1;
    }
    let ghost av = app@;
    out.insert(n, app);
    proof {
        lemma_insert_sorted_at(full, av, n as int);
    }
}

/// Build the index: merge every system tier in order, then the user tier if
/// present, apply and consume override patches per file, deduplicate by name
/// with later tiers replacing earlier ones, and sort ascending by name.
///
/// The override store is left holding exactly the patches no file consumed.
pub fn load_apps(
    system: Vec<Vec<DesktopFile>>,
    user: Option<Vec<DesktopFile>>,
    overrides: &mut Config,
) -> (apps: Vec<Application>)
    ensures
        apps_view(apps@) == load_apps_spec(
            tiers_view(system@),
            user_view(user),
            old(overrides)@,
        ).0,
        final(overrides)@ == load_apps_spec(
            tiers_view(system@),
            user_view(user),
            old(overrides)@,
        ).1,
        sorted_by_name(apps_view(apps@)),
{
    let ghost tv = tiers_view(system@);
    let ghost all = match user_view(user) {
        None => tv,
        Some(u) => tv.push(u),
    };
    let ghost st0 = (Seq::<ApplicationView>::empty(), overrides@);
    let mut working: Vec<Application> = Vec::new();
    let nt = system.len();
    let mut ti: usize = 0;
    proof {
        assert(apps_view(working@) =~= Seq::<ApplicationView>::empty());
        assert(tv.len() == nt);
        assert(all.skip(0) =~= all);
    }
    while ti < nt
        invariant
            ti <= nt,
            nt == system@.len(),
            tv == tiers_view(system@),
            tv.len() == nt,
            all.len() == (if user_view(user) is Some {
                nt + 1
            } else {
                nt as int
            }),
            forall|m: int| 0 <= m < nt ==> all[m] == tv[m],
            user_view(user) is Some ==> all[nt as int] == user_view(user)->0,
            merge_tiers(st0, all) == merge_tiers(
                (apps_view(working@), overrides@),
                all.skip(ti as int),
            ),
        decreases nt - ti,
    {
        let ghost rem = all.skip(ti as int);
        proof {
            assert(rem.len() > 0 && rem[0] == all[ti as int] && all[ti as int] == tv[ti as int]
                && tv[ti as int] == files_view(system@[ti as int]@));
            assert(rem.drop_first() =~= all.skip(ti + 1));
        }
        apply_tier(&mut working, overrides, &system[ti]);
        ti = ti + 1;
    }
    let ghost pre = (apps_view(working@), overrides@);
    let ghost rem = all.skip(nt as int);
    match user {
        None => {
            proof {
                assert(rem =~= Seq::<Seq<DesktopFileView>>::empty());
                assert(merge_tiers(pre, rem) == pre);
            }
        },
        Some(utier) => {
            proof {
                assert(rem.len() == 1 && rem[0] == files_view(utier@));
                assert(rem.drop_first() =~= Seq::<Seq<DesktopFileView>>::empty());
                assert(merge_tiers(pre, rem) == merge_tiers(
                    merge_files(pre, rem[0]),
                    rem.drop_first(),
                ));
                assert(merge_tiers(merge_files(pre, rem[0]), rem.drop_first()) == merge_files(
                    pre,
                    rem[0],
                ));
            }
            apply_tier(&mut working, overrides, &utier);
        },
    }
    let ghost merged = merge_tiers(st0, all);
    proof {
        assert(merged == merge_tiers(pre, rem));
        assert(merged.0 == apps_view(working@) && merged.1 == overrides@);
    }
    let mut out: Vec<Application> = Vec::new();
    let mut rest = working;
    proof {
        assert(apps_view(out@) =~= Seq::<ApplicationView>::empty());
    }
    while rest.len() > 0
        invariant
            sort_by_name(merged.0) == sort_acc(apps_view(out@), apps_view(rest@)),
        decreases rest@.len(),
    {
        let ghost remv = apps_view(rest@);
        proof {
            assert(remv[0] == rest@[0]@);
        }
        let a = rest.remove(0);
        proof {
            assert(apps_view(rest@) =~= remv.drop_first());
        }
        insert_by_name(&mut out, a);
    }
    proof {
        assert(apps_view(rest@) =~= Seq::<ApplicationView>::empty());
        lemma_sort_acc_sorted(Seq::empty(), merged.0);
    }
    out
}

} // verus!
