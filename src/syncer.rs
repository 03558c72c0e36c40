//! The synchronisation pass: which branches changed, how they are cut into
//! batches, and what one consumer group writes to the index, with a model of
//! the index that states what a committed group leaves behind.

use vstd::prelude::*;
use crate::aur_fetcher::{is_first_entry, opt_view};
use crate::srcinfo_parse::{
    arch_value, first_value, lookup, parse_spec, sorted_lt, strs_view, version_of,
    ParsedSrcInfo, SrcInfoView,
};
use crate::types::{DatabasePackageDetails, DatabasePackageInfo};

verus! {

/// How many branches one upstream call and one index transaction take.
pub const BATCH_SIZE: usize = 150;

/// The multi-valued attributes of a package record.
#[derive(Debug, Clone, Copy, PartialEq, Eq, Structural)]
pub enum AttrKind {
    Depends,
    MakeDepends,
    OptDepends,
    CheckDepends,
    Provides,
    Conflicts,
    Replaces,
    Groups,
}

/// The description property behind each attribute.
pub open spec fn attr_key(k: AttrKind) -> Seq<char> {
    match k {
        AttrKind::Depends => "depends"@,
        AttrKind::MakeDepends => "makedepends"@,
        AttrKind::OptDepends => "optdepends"@,
        AttrKind::CheckDepends => "checkdepends"@,
        AttrKind::Provides => "provides"@,
        AttrKind::Conflicts => "conflicts"@,
        AttrKind::Replaces => "replaces"@,
        AttrKind::Groups => "groups"@,
    }
}

/// `x` is a value of attribute `k` of a package with properties `ps`: groups
/// as written, the others with their architecture variants folded in.
pub open spec fn attr_holds(ps: crate::srcinfo_parse::PropList, k: AttrKind, x: Seq<char>) -> bool {
    match k {
        AttrKind::Groups => match lookup(ps, "groups"@) {
            Some(vals) => vals.contains(x),
            None => false,
        },
        _ => arch_value(ps, attr_key(k), x),
    }
}

/// A row of the index, its key aside: the scalar fields, and the attribute
/// rows as a set of (attribute, value) pairs.
pub struct RowView {
    pub commit: Seq<char>,
    pub desc: Option<Seq<char>>,
    pub version: Seq<char>,
    pub url: Option<Seq<char>>,
    pub attrs: Set<(AttrKind, Seq<char>)>,
}

/// The row that package `p` of a description at `commit` gives.
pub open spec fn row_of(commit: Seq<char>, p: SrcInfoView) -> RowView {
    RowView {
        commit,
        desc: first_value(p.props, "pkgdesc"@),
        version: version_of(p.props),
        url: first_value(p.props, "url"@),
        attrs: Set::new(|q: (AttrKind, Seq<char>)| attr_holds(p.props, q.0, q.1)),
    }
}

pub open spec fn attr_values(d: DatabasePackageDetails, k: AttrKind) -> Seq<Seq<char>> {
    match k {
        AttrKind::Depends => strs_view(d.depends@),
        AttrKind::MakeDepends => strs_view(d.make_depends@),
        AttrKind::OptDepends => strs_view(d.opt_depends@),
        AttrKind::CheckDepends => strs_view(d.check_depends@),
        AttrKind::Provides => strs_view(d.provides@),
        AttrKind::Conflicts => strs_view(d.conflicts@),
        AttrKind::Replaces => strs_view(d.replaces@),
        AttrKind::Groups => strs_view(d.groups@),
    }
}

/// The index key of a record: (branch, package name).
pub open spec fn record_key(d: DatabasePackageDetails) -> (Seq<char>, Seq<char>) {
    (d.info.branch@, d.info.pkg_name@)
}

/// The row that a record writes.
pub open spec fn record_row(d: DatabasePackageDetails) -> RowView {
    RowView {
        commit: d.info.commit_id@,
        desc: opt_view(d.info.pkg_desc),
        version: d.info.version@,
        url: opt_view(d.info.url),
        attrs: Set::new(|q: (AttrKind, Seq<char>)| attr_values(d, q.0).contains(q.1)),
    }
}

/// `d` is the record of package `p` on `branch` at `commit`; folded
/// attributes come each value once, in ascending order.
pub open spec fn is_record_of(
    d: DatabasePackageDetails,
    branch: Seq<char>,
    commit: Seq<char>,
    p: SrcInfoView,
) -> bool {
    &&& record_key(d) == (branch, p.pkgname)
    &&& record_row(d) == row_of(commit, p)
    &&& strs_view(d.groups@) == match lookup(p.props, "groups"@) {
        Some(vals) => vals,
        None => Seq::empty(),
    }
    &&& forall|k: AttrKind| k != AttrKind::Groups ==> sorted_lt(#[trigger] attr_values(d, k))
}

fn owned(s: Option<&str>) -> (r: Option<String>)
    ensures
        opt_view(r) == match s {
            Some(t) => Some(t@),
            None => None,
        },
{
    match s {
        Some(t) => Some(String::from_str(t)),
        None => None,
    }
}

/// The records of the packages that `srcinfo` declares, on `branch` at
/// `commit_id`, in the order of the description.
pub fn srcinfo_to_db_models(branch: &str, commit_id: &str, srcinfo: &str) -> (r: Vec<
    DatabasePackageDetails,
>)
    ensures
        r@.len() == parse_spec(srcinfo@).len(),
        forall|i: int|
            0 <= i < r@.len() ==> is_record_of(
                #[trigger] r@[i],
                branch@,
                commit_id@,
                parse_spec(srcinfo@)[i],
            ),
{
    let pkgs = ParsedSrcInfo::parse(srcinfo);
    let ghost ps = parse_spec(srcinfo@);
    let mut r: Vec<DatabasePackageDetails> = Vec::new();
    let mut i: usize = 0;
    while i < pkgs.len()
        invariant
            i <= pkgs@.len(),
            ps == parse_spec(srcinfo@),
            crate::srcinfo_parse::pkgs_view(pkgs@) == ps,
            r@.len() == i,
            forall|j: int|
                0 <= j < i ==> is_record_of(#[trigger] r@[j], branch@, commit_id@, ps[j]),
        decreases pkgs@.len() - i,
    {
        let pkg = &pkgs[i];
        assert(pkg@ == ps[i as int]);
        let d = DatabasePackageDetails {
            info: DatabasePackageInfo {
                branch: String::from_str(branch),
                commit_id: String::from_str(commit_id),
                pkg_name: pkg.pkgname.clone(),
                pkg_desc: owned(pkg.first_prop("pkgdesc")),
                version: pkg.version(),
                url: owned(pkg.first_prop("url")),
            },
            groups: pkg.prop("groups"),
            depends: pkg.flatten_arch_prop("depends"),
            make_depends: pkg.flatten_arch_prop("makedepends"),
            opt_depends: pkg.flatten_arch_prop("optdepends"),
            check_depends: pkg.flatten_arch_prop("checkdepends"),
            provides: pkg.flatten_arch_prop("provides"),
            conflicts: pkg.flatten_arch_prop("conflicts"),
            replaces: pkg.flatten_arch_prop("replaces"),
        };
        assert(record_row(d).attrs =~= row_of(commit_id@, pkg@).attrs);
        r.push(d);
        i = i + 1;
    }
    r
}

} // verus!

verus! {

/// Pairs of (branch, commit) as plain text.
pub type PairList = Seq<(Seq<char>, Seq<char>)>;

pub open spec fn pairs_view(v: Seq<(String, String)>) -> PairList {
    v.map_values(|e: (String, String)| (e.0@, e.1@))
}

/// The commit that `existing` records for `branch`.
pub open spec fn commit_of(existing: PairList, branch: Seq<char>) -> Option<Seq<char>> {
    if exists|i: int| is_first_entry(existing, branch, i) {
        Some(existing[choose|i: int| is_first_entry(existing, branch, i)].1)
    } else {
        None
    }
}

/// A branch needs work when the index has no commit for it or another one.
pub open spec fn needs_sync(existing: PairList, e: (Seq<char>, Seq<char>)) -> bool {
    commit_of(existing, e.0) != Some(e.1)
}

/// The upstream pairs that need work, in upstream order.
pub open spec fn to_process(upstream: PairList, existing: PairList) -> PairList
    decreases upstream.len(),
{
    if upstream.len() == 0 {
        Seq::empty()
    } else {
        let r = to_process(upstream.drop_last(), existing);
        if needs_sync(existing, upstream.last()) {
            r.push(upstream.last())
        } else {
            r
        }
    }
}

fn find_commit(existing: &Vec<(String, String)>, branch: &String) -> (r: Option<usize>)
    ensures
        match r {
            Some(i) => i < existing@.len() && commit_of(pairs_view(existing@), branch@) == Some(
                existing@[i as int].1@,
            ),
            None => commit_of(pairs_view(existing@), branch@) is None,
        },
{
    let ghost es = pairs_view(existing@);
    let mut i: usize = 0;
    while i < existing.len()
        invariant
            i <= existing@.len(),
            es == pairs_view(existing@),
            forall|j: int| 0 <= j < i ==> #[trigger] es[j].0 != branch@,
        decreases existing@.len() - i,
    {
        if existing[i].0 == *branch {
            proof {
                assert(is_first_entry(es, branch@, i as int));
                let c = choose|c: int| is_first_entry(es, branch@, c);
                if c < i {
                    assert(es[c].0 != branch@);
                } else if c > i {
                    assert(es[i as int].0 != branch@);
                }
            }
            return Some(i);
        }
        i = i + 1;
    }
    assert forall|c: int| !is_first_entry(es, branch@, c) by {
        if 0 <= c < es.len() {
            assert(es[c].0 != branch@);
        }
    }
    None
}

/// The upstream (branch, commit) pairs whose commit the index does not hold
/// yet, in upstream order. Branches that only the index knows are left alone.
pub fn branches_to_process(upstream: &Vec<(String, String)>, existing: &Vec<(String, String)>) -> (r:
    Vec<(String, String)>)
    ensures
        pairs_view(r@) == to_process(pairs_view(upstream@), pairs_view(existing@)),
{
    let ghost up = pairs_view(upstream@);
    let ghost ex = pairs_view(existing@);
    let mut r: Vec<(String, String)> = Vec::new();
    let mut i: usize = 0;
    assert(up.subrange(0, 0) =~= PairList::empty());
    assert(pairs_view(r@) =~= PairList::empty());
    while i < upstream.len()
        invariant
            i <= upstream@.len(),
            up == pairs_view(upstream@),
            ex == pairs_view(existing@),
            pairs_view(r@) == to_process(up.subrange(0, i as int), ex),
        decreases upstream@.len() - i,
    {
        assert(up.subrange(0, i + 1).drop_last() =~= up.subrange(0, i as int));
        let same = match find_commit(existing, &upstream[i].0) {
            Some(j) => existing[j].1 == upstream[i].1,
            None => false,
        };
        if !same {
            let ghost before = r@;
            r.push((upstream[i].0.clone(), upstream[i].1.clone()));
            assert(pairs_view(r@) =~= pairs_view(before).push(up[i as int]));
        }
        i = i + 1;
    }
    assert(up.subrange(0, i as int) =~= up);
    r
}

/// `bs` cut `items` into runs of `size`, the last one possibly shorter.
pub open spec fn is_batching(bs: Seq<Seq<(String, String)>>, items: Seq<(String, String)>, size: nat) -> bool {
    &&& forall|k: int| 0 <= k < bs.len() ==> 0 < #[trigger] bs[k].len() <= size
    &&& forall|k: int| 0 <= k < bs.len() - 1 ==> #[trigger] bs[k].len() == size
    &&& bs.flatten() == items
}

pub open spec fn batches_view(r: Seq<Vec<(String, String)>>) -> Seq<Seq<(String, String)>> {
    r.map_values(|b: Vec<(String, String)>| b@)
}

/// Cuts `items` into batches of `size`, in order.
pub fn split_batches(items: &Vec<(String, String)>, size: usize) -> (r: Vec<Vec<(String, String)>>)
    requires
        size > 0,
    ensures
        is_batching(batches_view(r@), items@, size as nat),
{
    let mut r: Vec<Vec<(String, String)>> = Vec::new();
    let mut start: usize = 0;
    let n = items.len();
    assert(batches_view(r@) =~= Seq::<Seq<(String, String)>>::empty());
    assert(items@.subrange(0, 0) =~= Seq::<(String, String)>::empty());
    while start < n
        invariant
            start <= n,
            n == items@.len(),
            size > 0,
            forall|k: int|
                0 <= k < batches_view(r@).len() ==> 0 < #[trigger] batches_view(r@)[k].len()
                    <= size,
            forall|k: int|
                0 <= k < batches_view(r@).len() - 1 ==> #[trigger] batches_view(r@)[k].len()
                    == size,
            start < n && batches_view(r@).len() > 0 ==> batches_view(r@).last().len() == size,
            batches_view(r@).flatten() == items@.subrange(0, start as int),
        decreases n - start,
    {
        let end = if n - start > size {
            start + size
        } else {
            n
        };
        let mut b: Vec<(String, String)> = Vec::new();
        let mut k: usize = start;
        while k < end
            invariant
                start <= k <= end <= n,
                n == items@.len(),
                b@ == items@.subrange(start as int, k as int),
            decreases end - k,
        {
            b.push((items[k].0.clone(), items[k].1.clone()));
            assert(b@[b@.len() - 1] == items@[k as int]);
            assert(b@ =~= items@.subrange(start as int, k + 1));
            k = k + 1;
        }
        let ghost old_r = batches_view(r@);
        r.push(b);
        proof {
            let nr = batches_view(r@);
            assert(nr =~= old_r.push(b@));
            old_r.lemma_flatten_push(b@);
            assert(items@.subrange(0, start as int) + items@.subrange(start as int, end as int)
                =~= items@.subrange(0, end as int));
            assert forall|k: int| 0 <= k < nr.len() - 1 implies #[trigger] nr[k].len() == size by {
                if k < old_r.len() - 1 {
                    assert(nr[k] == old_r[k]);
                } else {
                    assert(nr[k] == old_r.last());
                }
            }
        }
        start = end;
    }
    assert(items@.subrange(0, n as int) =~= items@);
    r
}

} // verus!

verus! {

/// One branch on its way from the fetcher to the index: its branch, the
/// commit it moves to, and the description text at that commit.
pub struct SyncTask {
    pub branch: String,
    pub commit: String,
    pub srcinfo_text: String,
}

pub type TaskView = (Seq<char>, Seq<char>, Seq<char>);

pub open spec fn tasks_view(ts: Seq<SyncTask>) -> Seq<TaskView> {
    ts.map_values(|t: SyncTask| (t.branch@, t.commit@, t.srcinfo_text@))
}

/// Pairs each (branch, commit) of a batch with the text fetched for the same
/// position; where one list is longer, its tail is left out.
pub fn pair_tasks(batch: &Vec<(String, String)>, texts: &Vec<String>) -> (r: Vec<SyncTask>)
    ensures
        r@.len() == if batch@.len() < texts@.len() {
            batch@.len()
        } else {
            texts@.len()
        },
        forall|i: int|
            0 <= i < r@.len() ==> #[trigger] tasks_view(r@)[i] == (
                batch@[i].0@,
                batch@[i].1@,
                texts@[i]@,
            ),
{
    let n = if batch.len() < texts.len() {
        batch.len()
    } else {
        texts.len()
    };
    let mut r: Vec<SyncTask> = Vec::new();
    let mut i: usize = 0;
    while i < n
        invariant
            i <= n,
            n <= batch@.len(),
            n <= texts@.len(),
            r@.len() == i,
            forall|j: int|
                0 <= j < i ==> #[trigger] tasks_view(r@)[j] == (
                    batch@[j].0@,
                    batch@[j].1@,
                    texts@[j]@,
                ),
        decreases n - i,
    {
        let ghost r0 = r@;
        r.push(
            SyncTask {
                branch: batch[i].0.clone(),
                commit: batch[i].1.clone(),
                srcinfo_text: texts[i].clone(),
            },
        );
        assert(tasks_view(r@) =~= tasks_view(r0).push(
            (batch@[i as int].0@, batch@[i as int].1@, texts@[i as int]@),
        ));
        i = i + 1;
    }
    r
}

/// A write of the index that comes before a group's records.
pub enum StoreOp {
    /// Delete every row of the branch, in all tables.
    Clear { branch: String },
    /// Record the commit that the branch now reflects.
    SetCommit { branch: String, commit: String },
}

pub enum OpView {
    Clear(Seq<char>),
    SetCommit(Seq<char>, Seq<char>),
}

pub open spec fn op_view(o: StoreOp) -> OpView {
    match o {
        StoreOp::Clear { branch } => OpView::Clear(branch@),
        StoreOp::SetCommit { branch, commit } => OpView::SetCommit(branch@, commit@),
    }
}

pub open spec fn ops_view(os: Seq<StoreOp>) -> Seq<OpView> {
    os.map_values(|o: StoreOp| op_view(o))
}

/// The writes of a group before its records: for each task in order, clear
/// its branch, then set its commit.
pub open spec fn ops_for(ts: Seq<TaskView>) -> Seq<OpView>
    decreases ts.len(),
{
    if ts.len() == 0 {
        Seq::empty()
    } else {
        ops_for(ts.drop_last()) + seq![
            OpView::Clear(ts.last().0),
            OpView::SetCommit(ts.last().0, ts.last().1),
        ]
    }
}

/// A row with its key.
pub type RowEntry = ((Seq<char>, Seq<char>), RowView);

/// The rows of the packages `pkgs` on branch `b` at commit `c`.
pub open spec fn pkg_rows(b: Seq<char>, c: Seq<char>, pkgs: Seq<SrcInfoView>) -> Seq<RowEntry> {
    pkgs.map_values(|p: SrcInfoView| ((b, p.pkgname), row_of(c, p)))
}

/// The rows of a group: those of each task's description, in task order.
pub open spec fn rows_for(ts: Seq<TaskView>) -> Seq<RowEntry>
    decreases ts.len(),
{
    if ts.len() == 0 {
        Seq::empty()
    } else {
        rows_for(ts.drop_last()) + pkg_rows(ts.last().0, ts.last().1, parse_spec(ts.last().2))
    }
}

/// The branches of a group whose description declares no package.
pub open spec fn empty_branches_for(ts: Seq<TaskView>) -> Seq<Seq<char>>
    decreases ts.len(),
{
    if ts.len() == 0 {
        Seq::empty()
    } else if parse_spec(ts.last().2).len() == 0 {
        empty_branches_for(ts.drop_last()).push(ts.last().0)
    } else {
        empty_branches_for(ts.drop_last())
    }
}

pub open spec fn records_view(ds: Seq<DatabasePackageDetails>) -> Seq<RowEntry> {
    ds.map_values(|d: DatabasePackageDetails| (record_key(d), record_row(d)))
}

/// What one consumer group writes in its one transaction: `ops` in order,
/// then `records` all at once. `empty_branches` are those that gave no
/// package; their commit is still set.
pub struct GroupPlan {
    pub ops: Vec<StoreOp>,
    pub records: Vec<DatabasePackageDetails>,
    pub empty_branches: Vec<String>,
}

/// The transaction of one group of tasks.
pub fn plan_group(tasks: &Vec<SyncTask>) -> (r: GroupPlan)
    ensures
        ops_view(r.ops@) == ops_for(tasks_view(tasks@)),
        records_view(r.records@) == rows_for(tasks_view(tasks@)),
        strs_view(r.empty_branches@) == empty_branches_for(tasks_view(tasks@)),
{
    let ghost ts = tasks_view(tasks@);
    let mut ops: Vec<StoreOp> = Vec::new();
    let mut records: Vec<DatabasePackageDetails> = Vec::new();
    let mut empty: Vec<String> = Vec::new();
    let mut i: usize = 0;
    assert(ts.subrange(0, 0) =~= Seq::<TaskView>::empty());
    assert(ops_view(ops@) =~= Seq::<OpView>::empty());
    assert(records_view(records@) =~= Seq::<RowEntry>::empty());
    assert(strs_view(empty@) =~= Seq::<Seq<char>>::empty());
    while i < tasks.len()
        invariant
            i <= tasks@.len(),
            ts == tasks_view(tasks@),
            ops_view(ops@) == ops_for(ts.subrange(0, i as int)),
            records_view(records@) == rows_for(ts.subrange(0, i as int)),
            strs_view(empty@) == empty_branches_for(ts.subrange(0, i as int)),
        decreases tasks@.len() - i,
    {
        let t = &tasks[i];
        let ghost tv = ts[i as int];
        assert(tv == (t.branch@, t.commit@, t.srcinfo_text@));
        assert(ts.subrange(0, i + 1).drop_last() =~= ts.subrange(0, i as int));
        assert(ts.subrange(0, i + 1).last() == tv);
        let ghost ops0 = ops@;
        ops.push(StoreOp::Clear { branch: t.branch.clone() });
        ops.push(StoreOp::SetCommit { branch: t.branch.clone(), commit: t.commit.clone() });
        assert(ops_view(ops@) =~= ops_view(ops0) + seq![
            OpView::Clear(tv.0),
            OpView::SetCommit(tv.0, tv.1),
        ]);
        let mut recs = srcinfo_to_db_models(t.branch.as_str(), t.commit.as_str(), t.srcinfo_text.as_str());
        let ghost pkgs = parse_spec(tv.2);
        assert(records_view(recs@) =~= pkg_rows(tv.0, tv.1, pkgs)) by {
            assert forall|j: int| 0 <= j < recs@.len() implies #[trigger] records_view(recs@)[j]
                == pkg_rows(tv.0, tv.1, pkgs)[j] by {
                assert(is_record_of(recs@[j], tv.0, tv.1, pkgs[j]));
            }
        }
        if recs.len() == 0 {
            let ghost e0 = empty@;
            empty.push(t.branch.clone());
            assert(strs_view(empty@) =~= strs_view(e0).push(tv.0));
        }
        let ghost r0 = records@;
        let ghost rc = recs@;
        records.append(&mut recs);
        assert(records_view(records@) =~= records_view(r0) + records_view(rc));
        i = i + 1;
    }
    assert(ts.subrange(0, i as int) =~= ts);
    GroupPlan { ops, records, empty_branches: empty }
}

} // verus!

verus! {

/// The index as its tables hold it: the commit of each branch, and the
/// package rows keyed by (branch, package name).
pub struct IndexModel {
    pub commits: Map<Seq<char>, Seq<char>>,
    pub rows: Map<(Seq<char>, Seq<char>), RowView>,
}

pub open spec fn apply_op(m: IndexModel, op: OpView) -> IndexModel {
    match op {
        OpView::Clear(b) => IndexModel {
            commits: m.commits,
            rows: Map::new(
                |k: (Seq<char>, Seq<char>)| m.rows.dom().contains(k) && k.0 != b,
                |k: (Seq<char>, Seq<char>)| m.rows[k],
            ),
        },
        OpView::SetCommit(b, c) => IndexModel { commits: m.commits.insert(b, c), rows: m.rows },
    }
}

pub open spec fn apply_ops(m: IndexModel, ops: Seq<OpView>) -> IndexModel
    decreases ops.len(),
{
    if ops.len() == 0 {
        m
    } else {
        apply_op(apply_ops(m, ops.drop_last()), ops.last())
    }
}

/// Insert-or-replace of a row's scalar fields; its attribute rows are
/// inserted or ignored, so they join those already there.
pub open spec fn upsert(m: IndexModel, e: RowEntry) -> IndexModel {
    IndexModel {
        commits: m.commits,
        rows: m.rows.insert(
            e.0,
            if m.rows.dom().contains(e.0) {
                RowView {
                    commit: e.1.commit,
                    desc: e.1.desc,
                    version: e.1.version,
                    url: e.1.url,
                    attrs: m.rows[e.0].attrs.union(e.1.attrs),
                }
            } else {
                e.1
            },
        ),
    }
}

pub open spec fn upsert_all(m: IndexModel, es: Seq<RowEntry>) -> IndexModel
    decreases es.len(),
{
    if es.len() == 0 {
        m
    } else {
        upsert(upsert_all(m, es.drop_last()), es.last())
    }
}

/// The index once the transaction of a group of tasks has committed.
pub open spec fn commit_group(m: IndexModel, ts: Seq<TaskView>) -> IndexModel {
    upsert_all(apply_ops(m, ops_for(ts)), rows_for(ts))
}

pub open spec fn in_tasks(ts: Seq<TaskView>, b: Seq<char>) -> bool {
    exists|i: int| 0 <= i < ts.len() && #[trigger] ts[i].0 == b
}

pub open spec fn distinct_branches(ts: Seq<TaskView>) -> bool {
    forall|i: int, j: int|
        0 <= i < ts.len() && 0 <= j < ts.len() && i != j ==> #[trigger] ts[i].0 != #[trigger] ts[j].0
}

pub open spec fn has_row(es: Seq<RowEntry>, k: (Seq<char>, Seq<char>)) -> bool {
    exists|j: int| 0 <= j < es.len() && #[trigger] es[j].0 == k
}

/// Every row's commit is the commit recorded for its branch.
pub open spec fn consistent(m: IndexModel) -> bool {
    forall|k: (Seq<char>, Seq<char>)|
        #[trigger] m.rows.dom().contains(k) ==> m.commits.dom().contains(k.0) && m.rows[k].commit
            == m.commits[k.0]
}

#[verifier::spinoff_prover]
proof fn lemma_ops_for(m: IndexModel, ts: Seq<TaskView>, m2: IndexModel)
    requires
        m2 == apply_ops(m, ops_for(ts)),
    ensures
        forall|k: (Seq<char>, Seq<char>)|
            #[trigger] m2.rows.dom().contains(k) <==> (m.rows.dom().contains(k) && !in_tasks(
                ts,
                k.0,
            )),
        forall|k: (Seq<char>, Seq<char>)| #[trigger]
            m2.rows.dom().contains(k) ==> m2.rows[k] == m.rows[k],
        forall|b: Seq<char>|
            !in_tasks(ts, b) ==> (#[trigger] m2.commits.dom().contains(b)
                <==> m.commits.dom().contains(b)) && (m.commits.dom().contains(b)
                ==> m2.commits[b] == m.commits[b]),
        distinct_branches(ts) ==> forall|i: int|
            0 <= i < ts.len() ==> #[trigger] m2.commits.dom().contains(ts[i].0)
                && m2.commits[ts[i].0] == ts[i].1,
    decreases ts.len(),
{
    if ts.len() > 0 {
        let t = ts.drop_last();
        let b = ts.last().0;
        let c = ts.last().1;
        let a = ops_for(t);
        let mid = apply_ops(m, a);
        lemma_ops_for(m, t, mid);
        let ops = ops_for(ts);
        assert(ops.drop_last() =~= a.push(OpView::Clear(b)));
        assert(a.push(OpView::Clear(b)).drop_last() =~= a);
        assert(ops.last() == OpView::SetCommit(b, c));
        let cleared = apply_op(mid, OpView::Clear(b));
        assert(apply_ops(m, a.push(OpView::Clear(b))) == cleared);
        assert(m2 == apply_op(cleared, OpView::SetCommit(b, c)));
        assert forall|x: Seq<char>| in_tasks(ts, x) <==> (in_tasks(t, x) || x == b) by {
            if in_tasks(ts, x) {
                let i = choose|i: int| 0 <= i < ts.len() && #[trigger] ts[i].0 == x;
                if i < ts.len() - 1 {
                    assert(t[i].0 == x);
                }
            }
            if in_tasks(t, x) {
                let i = choose|i: int| 0 <= i < t.len() && #[trigger] t[i].0 == x;
                assert(ts[i].0 == x);
            }
            if x == b {
                assert(ts[ts.len() - 1].0 == x);
            }
        }
        assert forall|x: Seq<char>| !in_tasks(ts, x) implies (#[trigger] m2.commits.dom().contains(
            x,
        ) <==> m.commits.dom().contains(x)) && (m.commits.dom().contains(x) ==> m2.commits[x]
            == m.commits[x]) by {
            assert(!in_tasks(t, x));
            assert(x != b);
            assert(cleared.commits == mid.commits);
            assert(m2.commits == mid.commits.insert(b, c));
            assert(mid.commits.dom().contains(x) <==> m.commits.dom().contains(x));
        }
        assert forall|k: (Seq<char>, Seq<char>)| #[trigger] m2.rows.dom().contains(k) <==> (
        m.rows.dom().contains(k) && !in_tasks(ts, k.0)) by {
            assert(m2.rows == cleared.rows);
            assert(cleared.rows.dom().contains(k) <==> (mid.rows.dom().contains(k) && k.0 != b));
        }
        if distinct_branches(ts) {
            assert(distinct_branches(t)) by {
                assert forall|i: int, j: int|
                    0 <= i < t.len() && 0 <= j < t.len() && i != j implies #[trigger] t[i].0
                    != #[trigger] t[j].0 by {
                    assert(t[i] == ts[i] && t[j] == ts[j]);
                }
            }
            assert forall|i: int| 0 <= i < ts.len() implies #[trigger] m2.commits.dom().contains(
                ts[i].0,
            ) && m2.commits[ts[i].0] == ts[i].1 by {
                if i < ts.len() - 1 {
                    assert(t[i] == ts[i]);
                    assert(mid.commits.dom().contains(t[i].0));
                    assert(ts[i].0 != ts[ts.len() - 1].0);
                    assert(cleared.commits == mid.commits);
                } else {
                    assert(ts[i].0 == b);
                }
            }
        }
    }
}

#[verifier::spinoff_prover]
proof fn lemma_upsert_all(m: IndexModel, es: Seq<RowEntry>, u: IndexModel)
    requires
        u == upsert_all(m, es),
    ensures
        u.commits == m.commits,
        forall|k: (Seq<char>, Seq<char>)|
            #[trigger] u.rows.dom().contains(k) <==> (m.rows.dom().contains(k) || has_row(es, k)),
        forall|k: (Seq<char>, Seq<char>)|
            !has_row(es, k) && #[trigger] m.rows.dom().contains(k) ==> u.rows[k] == m.rows[k],
        forall|k: (Seq<char>, Seq<char>)|
            #[trigger] has_row(es, k) ==> exists|j: int|
                0 <= j < es.len() && #[trigger] es[j].0 == k && u.rows[k].commit == es[j].1.commit,
    decreases es.len(),
{
    if es.len() > 0 {
        let t = es.drop_last();
        let e = es.last();
        let mid = upsert_all(m, t);
        lemma_upsert_all(m, t, mid);
        assert forall|k: (Seq<char>, Seq<char>)| has_row(es, k) <==> (has_row(t, k) || k == e.0) by {
            if has_row(es, k) {
                let j = choose|j: int| 0 <= j < es.len() && #[trigger] es[j].0 == k;
                if j < es.len() - 1 {
                    assert(t[j].0 == k);
                }
            }
            if has_row(t, k) {
                let j = choose|j: int| 0 <= j < t.len() && #[trigger] t[j].0 == k;
                assert(es[j].0 == k);
            }
            if k == e.0 {
                assert(es[es.len() - 1].0 == k);
            }
        }
        assert forall|k: (Seq<char>, Seq<char>)| #[trigger] has_row(es, k) implies exists|j: int|
            0 <= j < es.len() && #[trigger] es[j].0 == k && u.rows[k].commit == es[j].1.commit by {
            if k == e.0 {
                assert(es[es.len() - 1].0 == k);
            } else {
                assert(has_row(t, k));
                let j = choose|j: int|
                    0 <= j < t.len() && #[trigger] t[j].0 == k && mid.rows[k].commit
                        == t[j].1.commit;
                assert(es[j] == t[j]);
            }
        }
    }
}

/// Task `i` of `ts` declares package `q` of its description, which names it.
pub open spec fn declares(ts: Seq<TaskView>, i: int, name: Seq<char>) -> bool {
    exists|q: int|
        0 <= q < parse_spec(ts[i].2).len() && #[trigger] parse_spec(ts[i].2)[q].pkgname == name
}

/// Row `e` comes from package of task `i`, at that task's commit.
pub open spec fn row_from(ts: Seq<TaskView>, e: RowEntry, i: int) -> bool {
    &&& 0 <= i < ts.len()
    &&& e.0.0 == ts[i].0
    &&& declares(ts, i, e.0.1)
    &&& e.1.commit == ts[i].1
}

/// Row `e` comes from one of the tasks of `ts`.
pub open spec fn has_source(ts: Seq<TaskView>, e: RowEntry) -> bool {
    exists|i: int| row_from(ts, e, i)
}

#[verifier::spinoff_prover]
proof fn lemma_rows_for(ts: Seq<TaskView>)
    ensures
        forall|j: int| 0 <= j < rows_for(ts).len() ==> has_source(ts, #[trigger] rows_for(ts)[j]),
        forall|i: int, name: Seq<char>|
            0 <= i < ts.len() && #[trigger] declares(ts, i, name) ==> has_row(
                rows_for(ts),
                (ts[i].0, name),
            ),
    decreases ts.len(),
{
    if ts.len() > 0 {
        let t = ts.drop_last();
        lemma_rows_for(t);
        let n = ts.len() - 1;
        let pr = pkg_rows(ts[n].0, ts[n].1, parse_spec(ts[n].2));
        let rs = rows_for(ts);
        let rt = rows_for(t);
        assert(rs == rt + pr);
        assert forall|j: int| 0 <= j < rows_for(ts).len() implies has_source(
            ts,
            #[trigger] rows_for(ts)[j],
        ) by {
            if j < rt.len() {
                assert(rs[j] == rt[j]);
                assert(has_source(t, rt[j]));
                let i = choose|i: int| row_from(t, rt[j], i);
                assert(t[i] == ts[i]);
                assert(declares(ts, i, rs[j].0.1)) by {
                    let q = choose|q: int|
                        0 <= q < parse_spec(t[i].2).len() && #[trigger] parse_spec(t[i].2)[q].pkgname
                            == rt[j].0.1;
                    assert(parse_spec(ts[i].2)[q].pkgname == rs[j].0.1);
                }
                assert(row_from(ts, rs[j], i));
            } else {
                let q = j - rt.len();
                assert(rs[j] == pr[q]);
                assert(parse_spec(ts[n].2)[q].pkgname == rs[j].0.1);
                assert(rs[j].0.0 == ts[n].0);
                assert(row_from(ts, rs[j], n));
            }
        }
        assert forall|i: int, name: Seq<char>|
            0 <= i < ts.len() && #[trigger] declares(ts, i, name) implies has_row(
            rs,
            (ts[i].0, name),
        ) by {
            let q = choose|q: int|
                0 <= q < parse_spec(ts[i].2).len() && #[trigger] parse_spec(ts[i].2)[q].pkgname
                    == name;
            if i < n {
                assert(t[i] == ts[i]);
                assert(parse_spec(t[i].2)[q].pkgname == name);
                assert(declares(t, i, name));
                let j = choose|j: int| 0 <= j < rt.len() && #[trigger] rt[j].0 == (t[i].0, name);
                assert(rs[j] == rt[j]);
            } else {
                assert(rs[rt.len() + q] == pr[q]);
                assert(rs[rt.len() + q].0 == (ts[i].0, name));
            }
        }
    } else {
        assert(rows_for(ts).len() == 0);
    }
}

/// What a committed group leaves in the index, for tasks with distinct
/// branches: each task's branch points at its commit, and its rows are
/// exactly the packages its description declares, all at that commit;
/// branches outside the group keep their commit and their rows.
#[verifier::spinoff_prover]
pub proof fn lemma_commit_group(m: IndexModel, ts: Seq<TaskView>)
    requires
        distinct_branches(ts),
    ensures
        forall|i: int|
            0 <= i < ts.len() ==> #[trigger] commit_group(m, ts).commits.dom().contains(ts[i].0)
                && commit_group(m, ts).commits[ts[i].0] == ts[i].1,
        forall|b: Seq<char>|
            !in_tasks(ts, b) ==> (#[trigger] commit_group(m, ts).commits.dom().contains(b)
                <==> m.commits.dom().contains(b)) && (m.commits.dom().contains(b)
                ==> commit_group(m, ts).commits[b] == m.commits[b]),
        forall|k: (Seq<char>, Seq<char>)|
            !in_tasks(ts, k.0) ==> (#[trigger] commit_group(m, ts).rows.dom().contains(k)
                <==> m.rows.dom().contains(k)) && (m.rows.dom().contains(k) ==> commit_group(
                m,
                ts,
            ).rows[k] == m.rows[k]),
        forall|i: int, name: Seq<char>|
            0 <= i < ts.len() ==> (#[trigger] commit_group(m, ts).rows.dom().contains(
                (ts[i].0, name),
            ) <==> declares(ts, i, name)),
        forall|i: int, name: Seq<char>|
            0 <= i < ts.len() && #[trigger] commit_group(m, ts).rows.dom().contains(
                (ts[i].0, name),
            ) ==> commit_group(m, ts).rows[(ts[i].0, name)].commit == ts[i].1,
{
    let mid = apply_ops(m, ops_for(ts));
    let rs = rows_for(ts);
    let m2 = commit_group(m, ts);
    lemma_ops_for(m, ts, mid);
    lemma_upsert_all(mid, rs, m2);
    lemma_rows_for(ts);
    assert forall|k: (Seq<char>, Seq<char>)| !in_tasks(ts, k.0) implies !has_row(rs, k) by {
        if has_row(rs, k) {
            let j = choose|j: int| 0 <= j < rs.len() && #[trigger] rs[j].0 == k;
            assert(has_source(ts, rs[j]));
            let i = choose|i: int| row_from(ts, rs[j], i);
            assert(ts[i].0 == k.0);
        }
    }
    assert forall|i: int, name: Seq<char>| 0 <= i < ts.len() implies (
    #[trigger] m2.rows.dom().contains((ts[i].0, name)) <==> declares(ts, i, name)) by {
        let k = (ts[i].0, name);
        assert(in_tasks(ts, ts[i].0));
        assert(!mid.rows.dom().contains(k));
        if has_row(rs, k) {
            let j = choose|j: int| 0 <= j < rs.len() && #[trigger] rs[j].0 == k;
            assert(has_source(ts, rs[j]));
            let i2 = choose|i2: int| row_from(ts, rs[j], i2);
            assert(i2 == i);
        }
    }
    assert forall|i: int, name: Seq<char>|
        0 <= i < ts.len() && #[trigger] m2.rows.dom().contains((ts[i].0, name)) implies m2.rows[(
        ts[i].0,
        name,
    )].commit == ts[i].1 by {
        let k = (ts[i].0, name);
        assert(in_tasks(ts, ts[i].0));
        assert(!mid.rows.dom().contains(k));
        assert(has_row(rs, k));
        let j = choose|j: int|
            0 <= j < rs.len() && #[trigger] rs[j].0 == k && m2.rows[k].commit == rs[j].1.commit;
        assert(has_source(ts, rs[j]));
        let i2 = choose|i2: int| row_from(ts, rs[j], i2);
        assert(i2 == i);
    }
}

} // verus!

verus! {

pub open spec fn distinct_pairs(ps: PairList) -> bool {
    forall|i: int, j: int|
        0 <= i < ps.len() && 0 <= j < ps.len() && i != j ==> #[trigger] ps[i].0 != #[trigger] ps[j].0
}

/// Re-syncing is selective: a pair is processed exactly when it comes from
/// upstream and the index does not already hold that commit for the branch;
/// in particular a branch whose stored commit equals its upstream commit is
/// never processed. Distinct upstream branches stay distinct.
#[verifier::spinoff_prover]
pub proof fn lemma_to_process(up: PairList, ex: PairList)
    ensures
        forall|e: (Seq<char>, Seq<char>)|
            #[trigger] to_process(up, ex).contains(e) <==> (up.contains(e) && needs_sync(ex, e)),
        distinct_pairs(up) ==> distinct_pairs(to_process(up, ex)),
    decreases up.len(),
{
    if up.len() > 0 {
        let t = up.drop_last();
        let l = up.last();
        lemma_to_process(t, ex);
        let r = to_process(t, ex);
        assert forall|e: (Seq<char>, Seq<char>)| up.contains(e) <==> (t.contains(e) || e == l) by {
            if up.contains(e) {
                let i = choose|i: int| 0 <= i < up.len() && up[i] == e;
                if i < up.len() - 1 {
                    assert(t[i] == e);
                }
            }
            if t.contains(e) {
                let i = choose|i: int| 0 <= i < t.len() && t[i] == e;
                assert(up[i] == e);
            }
            if e == l {
                assert(up[up.len() - 1] == e);
            }
        }
        if needs_sync(ex, l) {
            let rp = r.push(l);
            assert forall|e: (Seq<char>, Seq<char>)| rp.contains(e) <==> (r.contains(e) || e == l) by {
                if rp.contains(e) {
                    let i = choose|i: int| 0 <= i < rp.len() && rp[i] == e;
                    if i < r.len() {
                        assert(r[i] == e);
                    }
                }
                if r.contains(e) {
                    let i = choose|i: int| 0 <= i < r.len() && r[i] == e;
                    assert(rp[i] == e);
                }
                if e == l {
                    assert(rp[rp.len() - 1] == e);
                }
            }
        }
        if distinct_pairs(up) {
            assert(distinct_pairs(t)) by {
                assert forall|i: int, j: int|
                    0 <= i < t.len() && 0 <= j < t.len() && i != j implies #[trigger] t[i].0
                    != #[trigger] t[j].0 by {
                    assert(t[i] == up[i] && t[j] == up[j]);
                }
            }
            if needs_sync(ex, l) {
                let rp = r.push(l);
                assert forall|i: int, j: int|
                    0 <= i < rp.len() && 0 <= j < rp.len() && i != j implies #[trigger] rp[i].0
                    != #[trigger] rp[j].0 by {
                    if i < r.len() && j < r.len() {
                        assert(rp[i] == r[i] && rp[j] == r[j]);
                    } else {
                        let k = if i < r.len() {
                            i
                        } else {
                            j
                        };
                        assert(rp[k] == r[k]);
                        assert(r.contains(r[k]));
                        let m = choose|m: int| 0 <= m < t.len() && t[m] == r[k];
                        assert(up[m] == t[m]);
                        assert(up[m].0 != up[up.len() - 1].0);
                    }
                }
            }
        }
    }
}

/// The commit-per-branch map of the index read as pairs.
pub open spec fn pairs_of_store(ex: PairList, m: IndexModel) -> bool {
    forall|b: Seq<char>|
        #[trigger] commit_of(ex, b) == if m.commits.dom().contains(b) {
            Some(m.commits[b])
        } else {
            None
        }
}

/// The tasks carry the pairs `ps`, in order.
pub open spec fn tasks_carry(ts: Seq<TaskView>, ps: PairList) -> bool {
    &&& ts.len() == ps.len()
    &&& forall|i: int| 0 <= i < ts.len() ==> #[trigger] ts[i].0 == ps[i].0 && ts[i].1 == ps[i].1
}

/// The index after the groups `gs` committed one after another.
pub open spec fn commit_groups(m: IndexModel, gs: Seq<Seq<TaskView>>) -> IndexModel
    decreases gs.len(),
{
    if gs.len() == 0 {
        m
    } else {
        commit_group(commit_groups(m, gs.drop_last()), gs.last())
    }
}

/// `m` is `m0` with the tasks `ts` written: each task's branch points at its
/// commit and holds exactly the rows of its description, at that commit;
/// every other branch is as in `m0`.
pub open spec fn reflects(m0: IndexModel, m: IndexModel, ts: Seq<TaskView>) -> bool {
    &&& forall|i: int|
        0 <= i < ts.len() ==> #[trigger] m.commits.dom().contains(ts[i].0) && m.commits[ts[i].0]
            == ts[i].1
    &&& forall|b: Seq<char>|
        !in_tasks(ts, b) ==> (#[trigger] m.commits.dom().contains(b) <==> m0.commits.dom().contains(
            b,
        )) && (m0.commits.dom().contains(b) ==> m.commits[b] == m0.commits[b])
    &&& forall|k: (Seq<char>, Seq<char>)|
        !in_tasks(ts, k.0) ==> (#[trigger] m.rows.dom().contains(k) <==> m0.rows.dom().contains(k))
            && (m0.rows.dom().contains(k) ==> m.rows[k] == m0.rows[k])
    &&& forall|i: int, name: Seq<char>|
        0 <= i < ts.len() ==> (#[trigger] m.rows.dom().contains((ts[i].0, name)) <==> declares(
            ts,
            i,
            name,
        ))
    &&& forall|i: int, name: Seq<char>|
        0 <= i < ts.len() && #[trigger] m.rows.dom().contains((ts[i].0, name)) ==> m.rows[(
            ts[i].0,
            name,
        )].commit == ts[i].1
}

#[verifier::spinoff_prover]
proof fn lemma_reflects_step(m0: IndexModel, m: IndexModel, a: Seq<TaskView>, b: Seq<TaskView>)
    requires
        reflects(m0, m, a),
        distinct_branches(a + b),
    ensures
        reflects(m0, commit_group(m, b), a + b),
{
    let ab = a + b;
    let m2 = commit_group(m, b);
    assert(distinct_branches(b)) by {
        assert forall|i: int, j: int|
            0 <= i < b.len() && 0 <= j < b.len() && i != j implies #[trigger] b[i].0
            != #[trigger] b[j].0 by {
            assert(ab[a.len() + i] == b[i] && ab[a.len() + j] == b[j]);
        }
    }
    lemma_commit_group(m, b);
    assert forall|x: Seq<char>| in_tasks(ab, x) <==> (in_tasks(a, x) || in_tasks(b, x)) by {
        if in_tasks(ab, x) {
            let i = choose|i: int| 0 <= i < ab.len() && #[trigger] ab[i].0 == x;
            if i < a.len() {
                assert(a[i] == ab[i]);
            } else {
                assert(b[i - a.len()] == ab[i]);
            }
        }
        if in_tasks(a, x) {
            let i = choose|i: int| 0 <= i < a.len() && #[trigger] a[i].0 == x;
            assert(ab[i] == a[i]);
        }
        if in_tasks(b, x) {
            let i = choose|i: int| 0 <= i < b.len() && #[trigger] b[i].0 == x;
            assert(ab[a.len() + i] == b[i]);
        }
    }
    assert forall|i: int| 0 <= i < a.len() implies !in_tasks(b, #[trigger] a[i].0) by {
        if in_tasks(b, a[i].0) {
            let j = choose|j: int| 0 <= j < b.len() && #[trigger] b[j].0 == a[i].0;
            assert(ab[i] == a[i] && ab[a.len() + j] == b[j]);
        }
    }
    assert forall|i: int, name: Seq<char>| 0 <= i < ab.len() implies declares(ab, i, name) == (
    if i < a.len() {
        declares(a, i, name)
    } else {
        declares(b, i - a.len(), name)
    }) by {
        if i < a.len() {
            assert(ab[i] == a[i]);
        } else {
            assert(ab[i] == b[i - a.len()]);
        }
    }
    assert forall|i: int| 0 <= i < ab.len() implies #[trigger] m2.commits.dom().contains(ab[i].0)
        && m2.commits[ab[i].0] == ab[i].1 by {
        if i < a.len() {
            assert(ab[i] == a[i]);
            assert(!in_tasks(b, a[i].0));
        } else {
            assert(ab[i] == b[i - a.len()]);
        }
    }
    assert forall|i: int, name: Seq<char>| 0 <= i < ab.len() implies (
    #[trigger] m2.rows.dom().contains((ab[i].0, name)) <==> declares(ab, i, name)) by {
        if i < a.len() {
            assert(ab[i] == a[i]);
            assert(!in_tasks(b, a[i].0));
            assert(m.rows.dom().contains((a[i].0, name)) <==> declares(a, i, name));
        } else {
            assert(ab[i] == b[i - a.len()]);
        }
    }
    assert forall|i: int, name: Seq<char>|
        0 <= i < ab.len() && #[trigger] m2.rows.dom().contains((ab[i].0, name)) implies m2.rows[(
        ab[i].0,
        name,
    )].commit == ab[i].1 by {
        if i < a.len() {
            assert(ab[i] == a[i]);
            assert(!in_tasks(b, a[i].0));
            assert(m.rows.dom().contains((a[i].0, name)));
        } else {
            assert(ab[i] == b[i - a.len()]);
        }
    }
}

/// Committing the groups `gs` one after another writes all their tasks:
/// where no branch comes twice, the index reflects the tasks of all groups
/// in order, whatever the cut between groups.
#[verifier::spinoff_prover]
pub proof fn lemma_commit_groups(m: IndexModel, gs: Seq<Seq<TaskView>>)
    requires
        distinct_branches(gs.flatten()),
    ensures
        reflects(m, commit_groups(m, gs), gs.flatten()),
    decreases gs.len(),
{
    if gs.len() == 0 {
        assert forall|i: int, name: Seq<char>|
            0 <= i < gs.flatten().len() implies (#[trigger] m.rows.dom().contains(
            (gs.flatten()[i].0, name),
        ) <==> declares(gs.flatten(), i, name)) by {}
    } else {
        let t = gs.drop_last();
        let l = gs.last();
        assert(gs =~= t.push(l));
        t.lemma_flatten_push(l);
        assert(distinct_branches(t.flatten())) by {
            let f = gs.flatten();
            assert forall|i: int, j: int|
                0 <= i < t.flatten().len() && 0 <= j < t.flatten().len() && i != j implies #[trigger] t.flatten()[i].0
                != #[trigger] t.flatten()[j].0 by {
                assert(f[i] == t.flatten()[i] && f[j] == t.flatten()[j]);
            }
        }
        lemma_commit_groups(m, t);
        lemma_reflects_step(m, commit_groups(m, t), t.flatten(), l);
    }
}

/// A sync pass brings the index up to date: when the tasks of the branches
/// that need work are committed in groups, cut wherever the consumer drains
/// them, every upstream branch then points at its upstream commit, every
/// branch that was up to date keeps its rows, a branch that only the index
/// knows keeps its commit, and each processed branch holds exactly the rows
/// of its new description.
#[verifier::spinoff_prover]
pub proof fn lemma_sync_pass(up: PairList, m: IndexModel, ex: PairList, gs: Seq<Seq<TaskView>>)
    requires
        distinct_pairs(up),
        pairs_of_store(ex, m),
        tasks_carry(gs.flatten(), to_process(up, ex)),
    ensures
        forall|i: int|
            0 <= i < up.len() ==> #[trigger] commit_groups(m, gs).commits.dom().contains(up[i].0)
                && commit_groups(m, gs).commits[up[i].0] == up[i].1,
        forall|i: int, name: Seq<char>|
            0 <= i < up.len() && !needs_sync(ex, up[i]) ==> (
            #[trigger] commit_groups(m, gs).rows.dom().contains((up[i].0, name))
                <==> m.rows.dom().contains((up[i].0, name))) && (m.rows.dom().contains(
                (up[i].0, name),
            ) ==> commit_groups(m, gs).rows[(up[i].0, name)] == m.rows[(up[i].0, name)]),
        forall|b: Seq<char>|
            !(exists|i: int| 0 <= i < up.len() && #[trigger] up[i].0 == b) ==> (
            #[trigger] commit_groups(m, gs).commits.dom().contains(b) <==> m.commits.dom().contains(
                b,
            )) && (m.commits.dom().contains(b) ==> commit_groups(m, gs).commits[b]
                == m.commits[b]),
        reflects(m, commit_groups(m, gs), gs.flatten()),
{
    let ts = gs.flatten();
    let tp = to_process(up, ex);
    lemma_to_process(up, ex);
    assert(distinct_branches(ts)) by {
        assert forall|i: int, j: int|
            0 <= i < ts.len() && 0 <= j < ts.len() && i != j implies #[trigger] ts[i].0
            != #[trigger] ts[j].0 by {
            assert(tp[i].0 != tp[j].0);
        }
    }
    lemma_commit_groups(m, gs);
    let m2 = commit_groups(m, gs);
    assert(reflects(m, m2, ts));
    // a task's branch is the branch of a pair that needs work
    assert forall|b: Seq<char>| in_tasks(ts, b) implies exists|j: int|
        0 <= j < up.len() && #[trigger] up[j].0 == b && needs_sync(ex, up[j]) by {
        let i = choose|i: int| 0 <= i < ts.len() && #[trigger] ts[i].0 == b;
        assert(tp.contains(tp[i]));
        let j = choose|j: int| 0 <= j < up.len() && up[j] == tp[i];
        assert(up[j].0 == b);
    }
    assert forall|i: int| 0 <= i < up.len() implies #[trigger] m2.commits.dom().contains(up[i].0)
        && m2.commits[up[i].0] == up[i].1 by {
        assert(up.contains(up[i]));
        if needs_sync(ex, up[i]) {
            assert(tp.contains(up[i]));
            let j = choose|j: int| 0 <= j < tp.len() && tp[j] == up[i];
            assert(tasks_carry(ts, tp));
            assert(ts[j].0 == tp[j].0 && ts[j].1 == tp[j].1);
            assert(m2.commits.dom().contains(ts[j].0));
        } else {
            assert(commit_of(ex, up[i].0) == Some(up[i].1));
            if in_tasks(ts, up[i].0) {
                let j = choose|j: int|
                    0 <= j < up.len() && #[trigger] up[j].0 == up[i].0 && needs_sync(ex, up[j]);
                assert(j == i);
            }
            assert(!in_tasks(ts, up[i].0));
            assert(m.commits.dom().contains(up[i].0));
        }
    }
    assert forall|i: int, name: Seq<char>|
        0 <= i < up.len() && !needs_sync(ex, up[i]) implies (
    #[trigger] m2.rows.dom().contains((up[i].0, name)) <==> m.rows.dom().contains(
        (up[i].0, name),
    )) && (m.rows.dom().contains((up[i].0, name)) ==> m2.rows[(up[i].0, name)] == m.rows[(
        up[i].0,
        name,
    )]) by {
        let k = (up[i].0, name);
        if in_tasks(ts, k.0) {
            let j = choose|j: int|
                0 <= j < up.len() && #[trigger] up[j].0 == k.0 && needs_sync(ex, up[j]);
            assert(j == i);
        }
        assert(!in_tasks(ts, k.0));
    }
    assert forall|b: Seq<char>|
        !(exists|i: int| 0 <= i < up.len() && #[trigger] up[i].0 == b) implies (
    #[trigger] m2.commits.dom().contains(b) <==> m.commits.dom().contains(b)) && (
    m.commits.dom().contains(b) ==> m2.commits[b] == m.commits[b]) by {
        if in_tasks(ts, b) {
            let j = choose|j: int| 0 <= j < up.len() && #[trigger] up[j].0 == b && needs_sync(ex, up[j]);
        }
    }
}

/// Committed groups keep the index consistent: where every row's commit was
/// its branch's commit before, it is so after, however the tasks were cut
/// into groups.
#[verifier::spinoff_prover]
pub proof fn lemma_commit_groups_consistent(m: IndexModel, gs: Seq<Seq<TaskView>>)
    requires
        distinct_branches(gs.flatten()),
        consistent(m),
    ensures
        consistent(commit_groups(m, gs)),
{
    let ts = gs.flatten();
    lemma_commit_groups(m, gs);
    let m2 = commit_groups(m, gs);
    assert(reflects(m, m2, ts));
    assert forall|k: (Seq<char>, Seq<char>)| #[trigger] m2.rows.dom().contains(k) implies m2.commits.dom().contains(
        k.0,
    ) && m2.rows[k].commit == m2.commits[k.0] by {
        if in_tasks(ts, k.0) {
            let i = choose|i: int| 0 <= i < ts.len() && #[trigger] ts[i].0 == k.0;
            assert(m2.commits.dom().contains(ts[i].0));
            assert(k == (ts[i].0, k.1));
            assert(m2.rows.dom().contains((ts[i].0, k.1)));
        } else {
            assert(m.rows.dom().contains(k));
            assert(m.commits.dom().contains(k.0));
        }
    }
}

} // verus!

verus! {

proof fn lemma_ops_for_holds(ts: Seq<TaskView>, i: int)
    requires
        0 <= i < ts.len(),
    ensures
        ops_for(ts).contains(OpView::Clear(ts[i].0)),
        ops_for(ts).contains(OpView::SetCommit(ts[i].0, ts[i].1)),
    decreases ts.len(),
{
    let t = ts.drop_last();
    let a = ops_for(t);
    let o = ops_for(ts);
    assert(o == a + seq![OpView::Clear(ts.last().0), OpView::SetCommit(ts.last().0, ts.last().1)]);
    if i < ts.len() - 1 {
        lemma_ops_for_holds(t, i);
        assert(t[i] == ts[i]);
        let x = choose|x: int| 0 <= x < a.len() && a[x] == OpView::Clear(ts[i].0);
        assert(o[x] == a[x]);
        let y = choose|y: int| 0 <= y < a.len() && a[y] == OpView::SetCommit(ts[i].0, ts[i].1);
        assert(o[y] == a[y]);
    } else {
        assert(o[a.len() as int] == OpView::Clear(ts[i].0));
        assert(o[a.len() as int + 1] == OpView::SetCommit(ts[i].0, ts[i].1));
    }
}

/// The index as readers see it once a group's transaction has ended: the
/// committed result, or, where it never committed, the index as it was.
/// That an uncommitted transaction leaves nothing behind is what the store's
/// transactions provide; this model takes it as given rather than proving it.
pub open spec fn after_group(m: IndexModel, ts: Seq<TaskView>, committed: bool) -> IndexModel {
    if committed {
        commit_group(m, ts)
    } else {
        m
    }
}

/// A branch's whole update is one unit of one transaction: the group that
/// holds its task clears it, sets its commit and writes a row for each
/// package its description declares. The last two clauses, that a group
/// which never commits leaves the branch's rows and commit as they were,
/// hold by the definition of `after_group`; they restate the store's
/// atomicity and do not prove it.
pub proof fn lemma_branch_unit(m: IndexModel, ts: Seq<TaskView>, i: int)
    requires
        0 <= i < ts.len(),
    ensures
        ops_for(ts).contains(OpView::Clear(ts[i].0)),
        ops_for(ts).contains(OpView::SetCommit(ts[i].0, ts[i].1)),
        forall|name: Seq<char>| #[trigger]
            declares(ts, i, name) ==> has_row(rows_for(ts), (ts[i].0, name)),
        after_group(m, ts, false).commits == m.commits,
        after_group(m, ts, false).rows == m.rows,
{
    lemma_ops_for_holds(ts, i);
    lemma_rows_for(ts);
}

} // verus!
