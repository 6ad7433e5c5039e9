//! Selection and copy planning.
//!
//! A discovered entry passes the filter when it is a regular file whose
//! name carries the configured extension.  Each selected file yields
//! one copy task; its destination is the file's base name under the
//! destination root (flatten mode) or its source-relative path under
//! the destination root (preserve mode).

use crate::ext::normalize_extension;
use crate::ext::matches_extension;
use crate::ext::spec_extension;
use crate::ext::spec_strip_dots;
use crate::paths::PathView;
use crate::paths::copy_path;
use vstd::prelude::*;

verus! {

/// The run configuration, immutable after construction.
pub struct Config {
    /// Components of the source root directory.
    pub source: Vec<String>,
    /// Components of the destination root directory.
    pub destination: Vec<String>,
    /// The extension files must carry, leading dots already stripped.
    pub extension: String,
    /// Whether directory structure is collapsed at the destination.
    pub flatten: bool,
}

/// Mathematical view of a [`Config`].
pub struct ConfigView {
    pub source: PathView,
    pub destination: PathView,
    pub extension: Seq<char>,
    pub flatten: bool,
}

impl View for Config {
    type V = ConfigView;

    open spec fn view(&self) -> ConfigView {
        ConfigView {
            source: self.source.deep_view(),
            destination: self.destination.deep_view(),
            extension: self.extension@,
            flatten: self.flatten,
        }
    }
}

impl Config {
    /// Builds a configuration, normalizing the extension by stripping
    /// its leading dots.
    pub fn new(source: Vec<String>, destination: Vec<String>, extension: &str, flatten: bool) -> (r:
        Config)
        ensures
            r@.source == source.deep_view(),
            r@.destination == destination.deep_view(),
            r@.extension == spec_strip_dots(extension@),
            r@.flatten == flatten,
    {
        Config { source, destination, extension: normalize_extension(extension), flatten }
    }
}

/// A filesystem entry seen during traversal: a path and whether it is
/// a regular file.
pub struct Entry {
    pub path: Vec<String>,
    pub is_file: bool,
}

/// Mathematical view of an [`Entry`].
pub struct EntryView {
    pub path: PathView,
    pub is_file: bool,
}

impl View for Entry {
    type V = EntryView;

    open spec fn view(&self) -> EntryView {
        EntryView { path: self.path.deep_view(), is_file: self.is_file }
    }
}

/// One planned copy: where the file lies and where its copy goes.
pub struct Task {
    pub source_path: Vec<String>,
    pub dest_path: Vec<String>,
}

/// Mathematical view of a [`Task`].
pub struct TaskView {
    pub source_path: PathView,
    pub dest_path: PathView,
}

impl View for Task {
    type V = TaskView;

    open spec fn view(&self) -> TaskView {
        TaskView {
            source_path: self.source_path.deep_view(),
            dest_path: self.dest_path.deep_view(),
        }
    }
}

/// The views of a sequence of entries.
pub open spec fn entry_views(s: Seq<Entry>) -> Seq<EntryView> {
    s.map_values(|e: Entry| e@)
}

/// The views of a sequence of tasks.
pub open spec fn task_views(s: Seq<Task>) -> Seq<TaskView> {
    s.map_values(|t: Task| t@)
}

/// Whether entry `e` passes the filter: a regular file whose base name
/// carries exactly the extension `ext`.
pub open spec fn spec_entry_matches(e: EntryView, ext: Seq<char>) -> bool {
    e.is_file && e.path.len() > 0 && spec_extension(e.path.last()) == Some(ext)
}

/// The paths of the entries that pass the filter, in traversal order.
pub open spec fn spec_select(entries: Seq<EntryView>, ext: Seq<char>) -> Seq<PathView>
    decreases entries.len(),
{
    if entries.len() == 0 {
        Seq::empty()
    } else {
        let front = spec_select(entries.drop_last(), ext);
        if spec_entry_matches(entries.last(), ext) {
            front.push(entries.last().path)
        } else {
            front
        }
    }
}

/// Whether a destination can be planned for `p`: the path has a base
/// name, and in preserve mode it lies under the source root.
pub open spec fn spec_planable(cfg: ConfigView, p: PathView) -> bool {
    p.len() > 0 && (!cfg.flatten ==> cfg.source.is_prefix_of(p))
}

/// The planned destination for `p`: its base name under the
/// destination root in flatten mode, its source-relative path under
/// the destination root in preserve mode.
pub open spec fn spec_plan_dest(cfg: ConfigView, p: PathView) -> PathView {
    if cfg.flatten {
        cfg.destination.push(p.last())
    } else {
        cfg.destination + p.skip(cfg.source.len() as int)
    }
}

/// The tasks planned for `files`, one per file, in order.
pub open spec fn spec_plan_tasks(cfg: ConfigView, files: Seq<PathView>) -> Seq<TaskView> {
    files.map_values(|p: PathView| TaskView { source_path: p, dest_path: spec_plan_dest(cfg, p) })
}

/// In preserve mode, the copied file's path relative to the
/// destination root equals its path relative to the source root.
pub proof fn lemma_preserve_relative(cfg: ConfigView, p: PathView)
    requires
        !cfg.flatten,
        spec_planable(cfg, p),
    ensures
        spec_plan_dest(cfg, p).skip(cfg.destination.len() as int) == p.skip(
            cfg.source.len() as int,
        ),
{
    assert(spec_plan_dest(cfg, p).skip(cfg.destination.len() as int) =~= p.skip(
        cfg.source.len() as int,
    ));
}

/// Every planned destination lies under the destination root.
pub proof fn lemma_dest_rooted(cfg: ConfigView, p: PathView)
    requires
        spec_planable(cfg, p),
    ensures
        cfg.destination.is_prefix_of(spec_plan_dest(cfg, p)),
{
    assert(cfg.destination =~= spec_plan_dest(cfg, p).subrange(
        0,
        cfg.destination.len() as int,
    ));
}

/// Every selected path comes from a matching entry, so when each
/// matching entry can be planned, so can each selected path.
pub proof fn lemma_select_planable(cfg: ConfigView, entries: Seq<EntryView>)
    requires
        forall|i: int|
            0 <= i < entries.len() ==> (spec_entry_matches(#[trigger] entries[i], cfg.extension)
                ==> spec_planable(cfg, entries[i].path)),
    ensures
        forall|m: int|
            0 <= m < spec_select(entries, cfg.extension).len() ==> spec_planable(
                cfg,
                #[trigger] spec_select(entries, cfg.extension)[m],
            ),
    decreases entries.len(),
{
    if entries.len() > 0 {
        lemma_select_planable(cfg, entries.drop_last());
        let front = spec_select(entries.drop_last(), cfg.extension);
        assert forall|m: int|
            0 <= m < spec_select(entries, cfg.extension).len() implies spec_planable(
            cfg,
            #[trigger] spec_select(entries, cfg.extension)[m],
        ) by {
            if m < front.len() {
                assert(spec_select(entries, cfg.extension)[m] == front[m]);
            } else {
                assert(entries[entries.len() - 1] == entries.last());
            }
        }
    }
}

/// Keeps the entries that are regular files with the configured
/// extension, in traversal order.
pub fn select_files(cfg: &Config, entries: &Vec<Entry>) -> (r: Vec<Vec<String>>)
    ensures
        r.deep_view() == spec_select(entry_views(entries@), cfg@.extension),
{
    let mut out: Vec<Vec<String>> = Vec::new();
    let mut i: usize = 0;
    while i < entries.len()
        invariant
            i <= entries@.len(),
            out.deep_view() == spec_select(entry_views(entries@).take(i as int), cfg@.extension),
        decreases entries@.len() - i,
    {
        let e = &entries[i];
        proof {
            assert(entry_views(entries@).take(i + 1).drop_last() =~= entry_views(entries@).take(
                i as int,
            ));
            assert(entry_views(entries@).take(i + 1).last() == entries@[i as int]@);
        }
        if e.is_file && e.path.len() > 0 {
            let name: &String = &e.path[e.path.len() - 1];
            if matches_extension(name.as_str(), &cfg.extension) {
                let c = copy_path(&e.path);
                out.push(c);
                proof {
                    assert(out.deep_view() =~= spec_select(
                        entry_views(entries@).take(i + 1),
                        cfg@.extension,
                    ));
                }
            }
        }
        proof {
            assert(out.deep_view() =~= spec_select(
                entry_views(entries@).take(i + 1),
                cfg@.extension,
            ));
        }
        i = i + 1;
    }
    proof {
        assert(entry_views(entries@).take(entries@.len() as int) =~= entry_views(entries@));
    }
    out
}

/// Plans the destination path for one selected file.
pub fn plan_destination(cfg: &Config, path: &Vec<String>) -> (r: Vec<String>)
    requires
        spec_planable(cfg@, path.deep_view()),
    ensures
        r.deep_view() == spec_plan_dest(cfg@, path.deep_view()),
{
    let mut out = copy_path(&cfg.destination);
    if cfg.flatten {
        let c = path[path.len() - 1].clone();
        out.push(c);
        proof {
            assert(out.deep_view() =~= spec_plan_dest(cfg@, path.deep_view()));
        }
    } else {
        let base: usize = cfg.destination.len();
        let skip: usize = cfg.source.len();
        proof {
            assert(out.deep_view().len() == out@.len());
            assert forall|m: int| 0 <= m < base implies out@[m]@ == cfg@.destination[m] by {
                assert(out.deep_view()[m] == out@[m]@);
            }
        }
        let mut i: usize = skip;
        while i < path.len()
            invariant
                skip <= i <= path@.len(),
                skip == cfg@.source.len(),
                base == cfg@.destination.len(),
                out@.len() == base + i - skip,
                forall|m: int| 0 <= m < base ==> out@[m]@ == cfg@.destination[m],
                forall|m: int| base <= m < out@.len() ==> out@[m]@ == path@[m - base + skip]@,
            decreases path@.len() - i,
        {
            let c = path[i].clone();
            out.push(c);
            i = i + 1;
        }
        proof {
            assert(out.deep_view() =~= spec_plan_dest(cfg@, path.deep_view()));
        }
    }
    out
}

/// Plans one copy task per selected file, in order.
pub fn plan_tasks(cfg: &Config, files: &Vec<Vec<String>>) -> (r: Vec<Task>)
    requires
        forall|m: int|
            0 <= m < files.deep_view().len() ==> spec_planable(cfg@, files.deep_view()[m]),
    ensures
        task_views(r@) == spec_plan_tasks(cfg@, files.deep_view()),
{
    let mut out: Vec<Task> = Vec::new();
    let mut i: usize = 0;
    while i < files.len()
        invariant
            i <= files@.len(),
            forall|m: int|
                0 <= m < files.deep_view().len() ==> spec_planable(cfg@, files.deep_view()[m]),
            out@.len() == i,
            forall|m: int|
                0 <= m < i ==> out@[m]@ == spec_plan_tasks(cfg@, files.deep_view())[m],
        decreases files@.len() - i,
    {
        proof {
            assert(files.deep_view()[i as int] == files@[i as int].deep_view());
        }
        let source_path = copy_path(&files[i]);
        let dest_path = plan_destination(cfg, &files[i]);
        out.push(Task { source_path, dest_path });
        i = i + 1;
    }
    proof {
        assert(task_views(out@) =~= spec_plan_tasks(cfg@, files.deep_view()));
    }
    out
}

} // verus!
