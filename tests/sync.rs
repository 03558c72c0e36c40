use aur_mirror_meta::syncer::{
    branches_to_process, pair_tasks, plan_group, split_batches, srcinfo_to_db_models, StoreOp,
    SyncTask, BATCH_SIZE,
};

fn pairs(v: &[(&str, &str)]) -> Vec<(String, String)> {
    v.iter().map(|(a, b)| (a.to_string(), b.to_string())).collect()
}

#[test]
fn up_to_date_branches_are_not_processed() {
    let up = pairs(&[("a", "c1"), ("b", "c2"), ("c", "c3")]);
    let ex = pairs(&[("a", "c1"), ("b", "old"), ("z", "c9")]);
    assert_eq!(branches_to_process(&up, &ex), pairs(&[("b", "c2"), ("c", "c3")]));
    assert!(branches_to_process(&up, &up).is_empty());
}

#[test]
fn only_changed_branch_is_processed_and_planned() {
    let up = pairs(&[("A", "c1"), ("B", "c2")]);
    let ex = pairs(&[("A", "c1")]);
    let pending = branches_to_process(&up, &ex);
    assert_eq!(pending, pairs(&[("B", "c2")]));
    let text = "pkgbase = B\npkgver = 1\npkgname = b-one\npkgname = b-two\n".to_string();
    let tasks = pair_tasks(&pending, &vec![text]);
    let plan = plan_group(&tasks);
    assert_eq!(plan.ops.len(), 2);
    assert!(matches!(&plan.ops[0], StoreOp::Clear { branch } if branch == "B"));
    assert!(matches!(&plan.ops[1], StoreOp::SetCommit { branch, commit } if branch == "B" && commit == "c2"));
    assert_eq!(plan.records.len(), 2);
    for r in &plan.records {
        assert_eq!(r.info.branch, "B");
        assert_eq!(r.info.commit_id, "c2");
    }
    assert_eq!(plan.records[0].info.pkg_name, "b-one");
    assert_eq!(plan.records[1].info.pkg_name, "b-two");
    assert!(plan.empty_branches.is_empty());
}

#[test]
fn branch_without_packages_still_moves_its_commit() {
    let tasks = vec![SyncTask {
        branch: "empty".to_string(),
        commit: "c7".to_string(),
        srcinfo_text: String::new(),
    }];
    let plan = plan_group(&tasks);
    assert_eq!(plan.ops.len(), 2);
    assert!(matches!(&plan.ops[1], StoreOp::SetCommit { branch, commit } if branch == "empty" && commit == "c7"));
    assert!(plan.records.is_empty());
    assert_eq!(plan.empty_branches, vec!["empty".to_string()]);
}

#[test]
fn records_carry_parsed_fields() {
    let text = "pkgbase = tool\npkgdesc = A tool\nurl = https://t.example\nepoch = 1\npkgver = 2.3\npkgrel = 4\ndepends = zlib\ndepends_x86_64 = glibc\nmakedepends = cmake\noptdepends = bash: completion\ncheckdepends = pytest\nprovides = tool-bin\nconflicts = tool-git\nreplaces = oldtool\ngroups = utils\npkgname = tool\n";
    let recs = srcinfo_to_db_models("tool", "abcdef0123", text);
    assert_eq!(recs.len(), 1);
    let r = &recs[0];
    assert_eq!(r.info.pkg_name, "tool");
    assert_eq!(r.info.pkg_desc.as_deref(), Some("A tool"));
    assert_eq!(r.info.url.as_deref(), Some("https://t.example"));
    assert_eq!(r.info.version, "1:2.3-4");
    assert_eq!(r.depends, vec!["glibc".to_string(), "zlib".to_string()]);
    assert_eq!(r.make_depends, vec!["cmake".to_string()]);
    assert_eq!(r.opt_depends, vec!["bash: completion".to_string()]);
    assert_eq!(r.check_depends, vec!["pytest".to_string()]);
    assert_eq!(r.provides, vec!["tool-bin".to_string()]);
    assert_eq!(r.conflicts, vec!["tool-git".to_string()]);
    assert_eq!(r.replaces, vec!["oldtool".to_string()]);
    assert_eq!(r.groups, vec!["utils".to_string()]);
}

#[test]
fn batches_are_full_but_the_last() {
    let items: Vec<(String, String)> = (0..7).map(|i| (format!("b{i}"), format!("c{i}"))).collect();
    let bs = split_batches(&items, 3);
    assert_eq!(bs.len(), 3);
    assert_eq!(bs[0].len(), 3);
    assert_eq!(bs[1].len(), 3);
    assert_eq!(bs[2].len(), 1);
    assert_eq!(bs.concat(), items);
    assert!(split_batches(&vec![], BATCH_SIZE).is_empty());
}

#[test]
fn pairing_stops_at_the_shorter_list() {
    let batch = pairs(&[("a", "1"), ("b", "2")]);
    let tasks = pair_tasks(&batch, &vec!["ta".to_string()]);
    assert_eq!(tasks.len(), 1);
    assert_eq!(tasks[0].branch, "a");
    assert_eq!(tasks[0].commit, "1");
    assert_eq!(tasks[0].srcinfo_text, "ta");
}
