use vstd::prelude::*;
use crate::staging::{contents, Entry, Key, StagingSet};
use crate::vpk_path::{is_root_level, is_root_path, path_key, split_path};

verus! {

/// A file read from a source archive: its path inside the archive and its
/// bytes.
#[derive(Clone, Debug)]
pub struct SourceFile {
    pub path: Vec<u8>,
    pub data: Vec<u8>,
}

impl SourceFile {
    pub open spec fn model(&self) -> (Seq<u8>, Seq<u8>) {
        (self.path@, self.data@)
    }
}

pub open spec fn files_model(files: Seq<SourceFile>) -> Seq<(Seq<u8>, Seq<u8>)> {
    files.map_values(|f: SourceFile| f.model())
}

/// A list of sources; `None` stands for one that is missing or could not be
/// opened.
pub open spec fn sources_model(sources: Seq<Option<Vec<SourceFile>>>) -> Seq<
    Option<Seq<(Seq<u8>, Seq<u8>)>>,
> {
    sources.map_values(
        |s: Option<Vec<SourceFile>>|
            match s {
                Some(files) => Some(files_model(files@)),
                None => None,
            },
    )
}

/// Adds the files of one source to `m` in order, each replacing what was
/// there under its identity; files at the archive's root are left out.
pub open spec fn stage_files(m: Map<Key, Seq<u8>>, files: Seq<(Seq<u8>, Seq<u8>)>) -> Map<
    Key,
    Seq<u8>,
>
    decreases files.len(),
{
    if files.len() == 0 {
        m
    } else {
        let before = stage_files(m, files.drop_last());
        let f = files.last();
        if is_root_path(f.0) {
            before
        } else {
            before.insert(path_key(f.0), f.1)
        }
    }
}

/// The merged content of a list of sources: each present source staged in
/// list order over the ones before it.
pub open spec fn merged(sources: Seq<Option<Seq<(Seq<u8>, Seq<u8>)>>>) -> Map<Key, Seq<u8>>
    decreases sources.len(),
{
    if sources.len() == 0 {
        Map::empty()
    } else {
        let before = merged(sources.drop_last());
        match sources.last() {
            Some(files) => stage_files(before, files),
            None => before,
        }
    }
}

/// Stages the files of one opened source archive into `set`: every file
/// below a directory replaces the entry of the same identity; root-level
/// files (such as the per-mod description) are skipped.
pub fn extract_vpk(files: &Vec<SourceFile>, set: &mut StagingSet)
    requires
        old(set).wf(),
    ensures
        final(set).wf(),
        contents(final(set)@) == stage_files(contents(old(set)@), files_model(files@)),
{
    let ghost m0 = contents(set@);
    let mut i: usize = 0;
    while i < files.len()
        invariant
            i <= files@.len(),
            set.wf(),
            contents(set@) == stage_files(m0, files_model(files@).subrange(0, i as int)),
        decreases files@.len() - i,
    {
        let f = &files[i];
        let ghost fm = files_model(files@);
        assert(fm.subrange(0, (i + 1) as int).drop_last() =~= fm.subrange(0, i as int));
        assert(fm[i as int] == f.model());
        if !is_root_level(&f.path) {
            let (ext, dir, name) = split_path(&f.path);
            set.insert(Entry { ext, dir, name, data: f.data.clone() });
        }
        i = i + 1;
    }
    assert(files_model(files@).subrange(0, files@.len() as int) =~= files_model(files@));
}

/// Merges sources in list order, later ones overriding earlier ones; a
/// missing source (`None`) contributes nothing.
pub fn merge_sources(sources: &Vec<Option<Vec<SourceFile>>>) -> (r: StagingSet)
    ensures
        r.wf(),
        contents(r@) == merged(sources_model(sources@)),
{
    let mut set = StagingSet::new();
    let mut i: usize = 0;
    proof {
        assert(contents(set@) =~= Map::<Key, Seq<u8>>::empty());
    }
    while i < sources.len()
        invariant
            i <= sources@.len(),
            set.wf(),
            contents(set@) == merged(sources_model(sources@).subrange(0, i as int)),
        decreases sources@.len() - i,
    {
        let ghost sm = sources_model(sources@);
        assert(sm.subrange(0, (i + 1) as int).drop_last() =~= sm.subrange(0, i as int));
        match &sources[i] {
            Some(files) => {
                extract_vpk(files, &mut set);
            },
            None => {},
        }
        i = i + 1;
    }
    assert(sources_model(sources@).subrange(0, sources@.len() as int) =~= sources_model(
        sources@,
    ));
    set
}

/// Source `j` holds, at position `idx`, a file below a directory whose
/// identity is `k`.
pub open spec fn contributes(
    sources: Seq<Option<Seq<(Seq<u8>, Seq<u8>)>>>,
    j: int,
    idx: int,
    k: Key,
) -> bool {
    0 <= j < sources.len() && match sources[j] {
        Some(fs) => 0 <= idx < fs.len() && !is_root_path(fs[idx].0) && path_key(fs[idx].0) == k,
        None => false,
    }
}

proof fn lemma_stage_absent(m: Map<Key, Seq<u8>>, files: Seq<(Seq<u8>, Seq<u8>)>, k: Key)
    requires
        forall|j: int|
            0 <= j < files.len() && !is_root_path(#[trigger] files[j].0) ==> path_key(files[j].0)
                != k,
    ensures
        stage_files(m, files).contains_key(k) == m.contains_key(k),
        m.contains_key(k) ==> stage_files(m, files)[k] == m[k],
    decreases files.len(),
{
    if files.len() > 0 {
        let init = files.drop_last();
        assert forall|j: int| 0 <= j < init.len() && !is_root_path(#[trigger] init[j].0) implies path_key(
            init[j].0,
        ) != k by {
            assert(init[j] == files[j]);
        }
        lemma_stage_absent(m, init, k);
        assert(files.last() == files[files.len() - 1]);
    }
}

proof fn lemma_stage_last(m: Map<Key, Seq<u8>>, files: Seq<(Seq<u8>, Seq<u8>)>, idx: int)
    requires
        0 <= idx < files.len(),
        !is_root_path(files[idx].0),
        forall|j: int|
            idx < j < files.len() && !is_root_path(#[trigger] files[j].0) ==> path_key(files[j].0)
                != path_key(files[idx].0),
    ensures
        stage_files(m, files).contains_key(path_key(files[idx].0)),
        stage_files(m, files)[path_key(files[idx].0)] == files[idx].1,
    decreases files.len(),
{
    let init = files.drop_last();
    assert(files.last() == files[files.len() - 1]);
    if idx < files.len() - 1 {
        assert forall|j: int| idx < j < init.len() && !is_root_path(#[trigger] init[j].0) implies path_key(
            init[j].0,
        ) != path_key(init[idx].0) by {
            assert(init[j] == files[j]);
        }
        lemma_stage_last(m, init, idx);
    }
}

proof fn lemma_stage_domain(m: Map<Key, Seq<u8>>, files: Seq<(Seq<u8>, Seq<u8>)>, k: Key)
    requires
        stage_files(m, files).contains_key(k),
        !m.contains_key(k),
    ensures
        exists|idx: int|
            0 <= idx < files.len() && !is_root_path(#[trigger] files[idx].0) && path_key(
                files[idx].0,
            ) == k,
    decreases files.len(),
{
    let init = files.drop_last();
    let last = files.len() - 1;
    assert(files.last() == files[last]);
    if !is_root_path(files[last].0) && path_key(files[last].0) == k {
    } else {
        lemma_stage_domain(m, init, k);
        let idx = choose|idx: int|
            0 <= idx < init.len() && !is_root_path(#[trigger] init[idx].0) && path_key(init[idx].0)
                == k;
        assert(files[idx] == init[idx]);
    }
}

/// The content of an identity in the merged set is that of the file of the
/// last source, and the last in that source, that holds it below a
/// directory: a later source overrides an earlier one.
pub proof fn lemma_last_source_wins(
    sources: Seq<Option<Seq<(Seq<u8>, Seq<u8>)>>>,
    j: int,
    idx: int,
)
    requires
        contributes(sources, j, idx, path_key(sources[j].unwrap()[idx].0)),
        forall|i: int|
            idx < i < sources[j].unwrap().len() ==> !#[trigger] contributes(
                sources,
                j,
                i,
                path_key(sources[j].unwrap()[idx].0),
            ),
        forall|jj: int, i: int|
            j < jj < sources.len() ==> !#[trigger] contributes(
                sources,
                jj,
                i,
                path_key(sources[j].unwrap()[idx].0),
            ),
    ensures
        merged(sources).contains_key(path_key(sources[j].unwrap()[idx].0)),
        merged(sources)[path_key(sources[j].unwrap()[idx].0)] == sources[j].unwrap()[idx].1,
    decreases sources.len(),
{
    let fs = sources[j].unwrap();
    let k = path_key(fs[idx].0);
    let init = sources.drop_last();
    let last = sources.len() - 1;
    assert(sources.last() == sources[last]);
    if j == last {
        assert forall|i: int| idx < i < fs.len() && !is_root_path(#[trigger] fs[i].0) implies path_key(
            fs[i].0,
        ) != k by {
            assert(!contributes(sources, j, i, k));
        }
        lemma_stage_last(merged(init), fs, idx);
    } else {
        assert(init[j] == sources[j]);
        assert forall|i: int| idx < i < fs.len() implies !#[trigger] contributes(init, j, i, k) by {
            assert(!contributes(sources, j, i, k));
        }
        assert forall|jj: int, i: int| j < jj < init.len() implies !#[trigger] contributes(
            init,
            jj,
            i,
            k,
        ) by {
            assert(init[jj] == sources[jj]);
            assert(!contributes(sources, jj, i, k));
        }
        lemma_last_source_wins(init, j, idx);
        match sources[last] {
            Some(lf) => {
                assert forall|i: int| 0 <= i < lf.len() && !is_root_path(#[trigger] lf[i].0) implies path_key(
                    lf[i].0,
                ) != k by {
                    assert(!contributes(sources, last, i, k));
                }
                lemma_stage_absent(merged(init), lf, k);
            },
            None => {},
        }
    }
}

/// Every identity in the merged set comes from a file below a directory in
/// some present source: root-level files never reach it on their own.
pub proof fn lemma_root_files_excluded(sources: Seq<Option<Seq<(Seq<u8>, Seq<u8>)>>>, k: Key)
    requires
        merged(sources).contains_key(k),
    ensures
        exists|j: int, idx: int| #[trigger] contributes(sources, j, idx, k),
    decreases sources.len(),
{
    let init = sources.drop_last();
    let last = sources.len() - 1;
    assert(sources.last() == sources[last]);
    if merged(init).contains_key(k) {
        lemma_root_files_excluded(init, k);
        let (j, idx) = choose|j: int, idx: int| #[trigger] contributes(init, j, idx, k);
        assert(init[j] == sources[j]);
        assert(contributes(sources, j, idx, k));
    } else {
        match sources[last] {
            Some(lf) => {
                lemma_stage_domain(merged(init), lf, k);
                let idx = choose|idx: int|
                    0 <= idx < lf.len() && !is_root_path(#[trigger] lf[idx].0) && path_key(
                        lf[idx].0,
                    ) == k;
                assert(contributes(sources, last, idx, k));
            },
            None => {},
        }
    }
}

/// A missing source changes nothing: the merge equals the merge of the
/// other sources.
pub proof fn lemma_missing_source_skipped(sources: Seq<Option<Seq<(Seq<u8>, Seq<u8>)>>>, i: int)
    requires
        0 <= i < sources.len(),
        sources[i] is None,
    ensures
        merged(sources) == merged(sources.remove(i)),
    decreases sources.len(),
{
    let init = sources.drop_last();
    let last = sources.len() - 1;
    if i == last {
        assert(sources.remove(i) =~= init);
        assert(sources.last() == sources[last]);
    } else {
        let r = sources.remove(i);
        assert(r.drop_last() =~= init.remove(i));
        assert(r.last() == sources.last());
        assert(init[i] == sources[i]);
        lemma_missing_source_skipped(init, i);
    }
}

} // verus!
