//! Instance batching for indirect, instanced drawing.
//!
//! Given a flat list of renderable instances, each tagged with a mesh key,
//! the batcher produces (a) a copy of the list stably sorted by mesh key, so
//! that instances sharing a mesh occupy one contiguous run, and (b) the list
//! of indirect draw commands that tell the device, for each run with drawable
//! geometry, which index sub-ranges to draw and where the run's per-instance
//! data starts.

use vstd::prelude::*;

verus! {

/// One renderable instance: a mesh key used for sorting and grouping, and an
/// opaque payload token standing for the per-instance data (transform,
/// appearance), which the batcher carries but never reads.
#[derive(Clone, Copy, Debug, PartialEq, Eq, Structural)]
pub struct InstanceRecord {
    /// Key of the shared geometry this instance draws.
    pub mesh: usize,
    /// Opaque per-instance payload token; moved, never interpreted.
    pub payload: u64,
}

/// A contiguous slice of the shared index buffer belonging to one drawable
/// group of a mesh.
#[derive(Clone, Copy, Debug, PartialEq, Eq, Structural)]
pub struct IndexSubRange {
    /// First index of the slice in the shared index buffer.
    pub start: u32,
    /// Number of indices in the slice.
    pub length: u32,
}

/// One indirect draw command: draw `index_count` indices starting at
/// `first_index`, instanced over the `instance_count` instances whose data
/// begins at `first_instance` in the sorted instance buffer.
#[derive(Clone, Copy, Debug, PartialEq, Eq, Structural)]
pub struct IndirectDrawCommand {
    pub first_index: u32,
    pub index_count: u32,
    pub first_instance: u32,
    pub instance_count: u32,
    pub vertex_offset: u32,
}

/// Read-only table mapping a mesh key to its index sub-ranges. The key
/// indexes `entries`; a key beyond the table, or one mapped to `None`, means
/// "no drawable geometry", the same as an entry with an empty range list.
pub struct GeometryTable {
    pub entries: Vec<Option<Vec<IndexSubRange>>>,
}

/// What one batching call returns: the instances reordered into contiguous
/// runs by mesh key, and the draw commands over those runs.
pub struct BatchResult {
    pub sorted_instances: Vec<InstanceRecord>,
    pub commands: Vec<IndirectDrawCommand>,
}

/// The sub-ranges the table holds for mesh key `k`: empty when the key is
/// beyond the table or mapped to `None`.
pub open spec fn lookup(g: GeometryTable, k: usize) -> Seq<IndexSubRange> {
    if k < g.entries@.len() {
        match g.entries@[k as int] {
            Some(v) => v@,
            None => Seq::empty(),
        }
    } else {
        Seq::empty()
    }
}

impl GeometryTable {
    /// The range list for mesh key `k`, or `None` when the table holds none.
    pub fn entry(&self, k: usize) -> (r: Option<&Vec<IndexSubRange>>)
        ensures
            (match r {
                Some(v) => v@,
                None => Seq::<IndexSubRange>::empty(),
            }) == lookup(*self, k),
    {
        if k < self.entries.len() {
            self.entries[k].as_ref()
        } else {
            None
        }
    }
}

/// The instances of `s` whose mesh key is `k`, in their order in `s`.
pub open spec fn filter_mesh(s: Seq<InstanceRecord>, k: usize) -> Seq<InstanceRecord>
    decreases s.len(),
{
    if s.len() == 0 {
        Seq::empty()
    } else if s[0].mesh == k {
        seq![s[0]] + filter_mesh(s.drop_first(), k)
    } else {
        filter_mesh(s.drop_first(), k)
    }
}

/// Mesh keys never decrease along `s`: each key's instances form one
/// contiguous run.
pub open spec fn sorted_by_mesh(s: Seq<InstanceRecord>) -> bool {
    forall|i: int, j: int| 0 <= i < j < s.len() ==> s[i].mesh <= s[j].mesh
}

proof fn lemma_filter_mesh_add(a: Seq<InstanceRecord>, b: Seq<InstanceRecord>, k: usize)
    ensures
        filter_mesh(a + b, k) == filter_mesh(a, k) + filter_mesh(b, k),
    decreases a.len(),
{
    if a.len() == 0 {
        assert(a + b =~= b);
        assert(filter_mesh(a, k) + filter_mesh(b, k) =~= filter_mesh(b, k));
    } else {
        lemma_filter_mesh_add(a.drop_first(), b, k);
        assert((a + b).drop_first() =~= a.drop_first() + b);
        assert((a + b)[0] == a[0]);
        if a[0].mesh == k {
            assert(seq![a[0]] + (filter_mesh(a.drop_first(), k) + filter_mesh(b, k)) =~= (
            seq![a[0]] + filter_mesh(a.drop_first(), k)) + filter_mesh(b, k));
        }
    }
}

proof fn lemma_filter_mesh_all(s: Seq<InstanceRecord>, k: usize)
    requires
        forall|i: int| 0 <= i < s.len() ==> s[i].mesh == k,
    ensures
        filter_mesh(s, k) == s,
    decreases s.len(),
{
    if s.len() > 0 {
        lemma_filter_mesh_all(s.drop_first(), k);
        assert(seq![s[0]] + s.drop_first() =~= s);
    }
}

proof fn lemma_filter_mesh_none(s: Seq<InstanceRecord>, k: usize)
    requires
        forall|i: int| 0 <= i < s.len() ==> s[i].mesh != k,
    ensures
        filter_mesh(s, k) == Seq::<InstanceRecord>::empty(),
    decreases s.len(),
{
    if s.len() > 0 {
        lemma_filter_mesh_none(s.drop_first(), k);
    }
}

/// Moving the element at `i` down to position `j`, past elements whose mesh
/// key differs from its own, reorders no two instances of equal key, so every
/// key's filtered subsequence is unchanged.
proof fn lemma_move_keeps_filters(s: Seq<InstanceRecord>, j: int, i: int)
    requires
        0 <= j <= i < s.len(),
        forall|m: int| j <= m < i ==> s[m].mesh != s[i].mesh,
    ensures
        forall|k: usize| filter_mesh(s.remove(i).insert(j, s[i]), k) == filter_mesh(s, k),
{
    let x = s[i];
    let p = s.subrange(0, j);
    let mid = s.subrange(j, i);
    let rest = s.subrange(i + 1, s.len() as int);
    let t = s.remove(i).insert(j, x);
    assert(s =~= p + (mid + (seq![x] + rest)));
    assert(t =~= p + (seq![x] + (mid + rest)));
    assert forall|k: usize| filter_mesh(t, k) == filter_mesh(s, k) by {
        lemma_filter_mesh_add(p, mid + (seq![x] + rest), k);
        lemma_filter_mesh_add(mid, seq![x] + rest, k);
        lemma_filter_mesh_add(seq![x], rest, k);
        lemma_filter_mesh_add(p, seq![x] + (mid + rest), k);
        lemma_filter_mesh_add(seq![x], mid + rest, k);
        lemma_filter_mesh_add(mid, rest, k);
        if k == x.mesh {
            lemma_filter_mesh_none(mid, k);
        } else {
            lemma_filter_mesh_none(seq![x], k);
        }
    }
}

/// Stable sort by mesh key: afterwards the keys are non-decreasing, and for
/// every key the instances carrying it keep their relative input order.
pub fn sort_by_mesh(v: &mut Vec<InstanceRecord>)
    ensures
        final(v)@.len() == old(v)@.len(),
        sorted_by_mesh(final(v)@),
        forall|k: usize| filter_mesh(final(v)@, k) == filter_mesh(old(v)@, k),
{
    let mut i: usize = 0;
    while i < v.len()
        invariant
            i <= v@.len(),
            v@.len() == old(v)@.len(),
            forall|a: int, b: int| 0 <= a < b < i ==> v@[a].mesh <= v@[b].mesh,
            forall|k: usize| filter_mesh(v@, k) == filter_mesh(old(v)@, k),
        decreases v@.len() - i,
    {
        let ghost s = v@;
        let key = v[i].mesh;
        let mut j: usize = i;
        while j > 0 && v[j - 1].mesh > key
            invariant
                j <= i < v@.len(),
                v@ == s,
                key == s[i as int].mesh,
                forall|m: int| j <= m < i ==> s[m].mesh > key,
            decreases j,
        {
            j = j - 1;
        }
        let x = v.remove(i);
        v.insert(j, x);
        proof {
            lemma_move_keeps_filters(s, j as int, i as int);
            let t = v@;
            assert(t == s.remove(i as int).insert(j as int, x));
            assert forall|a: int, b: int| 0 <= a < b < i + 1 implies t[a].mesh <= t[b].mesh by {
                assert(forall|m: int| 0 <= m < j ==> t[m] == s[m]);
                assert(t[j as int] == x);
                assert(forall|m: int| j < m <= i ==> t[m] == s[m - 1]);
                if b == j {
                    // a < j: prefix of s is sorted up to i and s[j-1].mesh <= key
                    assert(s[a].mesh <= s[j - 1].mesh);
                } else if a == j {
                    // elements moved past have keys greater than `key`
                    assert(t[b].mesh == s[b - 1].mesh);
                    assert(s[b - 1].mesh > key);
                }
            }
        }
        i = i + 1;
    }
}

/// Draw commands for one run: one command per sub-range, in the entry's
/// stored order, each drawing that sub-range instanced over the whole run.
pub open spec fn entry_commands(ranges: Seq<IndexSubRange>, offset: u32, count: u32) -> Seq<
    IndirectDrawCommand,
> {
    Seq::new(
        ranges.len(),
        |r: int|
            IndirectDrawCommand {
                first_index: ranges[r].start,
                index_count: ranges[r].length,
                first_instance: offset,
                instance_count: count,
                vertex_offset: 0,
            },
    )
}

/// Whether index `i` starts a run: it is the first index, or its mesh key
/// differs from its predecessor's.
pub open spec fn is_run_start(s: Seq<InstanceRecord>, i: int) -> bool {
    i == 0 || s[i - 1].mesh != s[i].mesh
}

/// Commands contributed at index `i` of the sorted list: a run start emits
/// its run's commands — the run's offset is `i` itself and its length is its
/// key's instance count — while every other index emits nothing.
pub open spec fn commands_at(s: Seq<InstanceRecord>, g: GeometryTable, i: int) -> Seq<
    IndirectDrawCommand,
> {
    if is_run_start(s, i) {
        entry_commands(lookup(g, s[i].mesh), i as u32, filter_mesh(s, s[i].mesh).len() as u32)
    } else {
        Seq::empty()
    }
}

/// Commands contributed by indices `0 .. n` of the sorted list, in order.
pub open spec fn commands_upto(s: Seq<InstanceRecord>, g: GeometryTable, n: int) -> Seq<
    IndirectDrawCommand,
>
    decreases n,
{
    if n <= 0 {
        Seq::empty()
    } else {
        commands_upto(s, g, n - 1) + commands_at(s, g, n - 1)
    }
}

/// All draw commands for the sorted instance list `s` under geometry `g`:
/// runs in list order, and within a run the entry's sub-ranges in stored
/// order.
pub open spec fn commands_of(s: Seq<InstanceRecord>, g: GeometryTable) -> Seq<
    IndirectDrawCommand,
> {
    commands_upto(s, g, s.len() as int)
}

/// Across one run — `a` starts it, indices up to `b` share its key — only the
/// run start contributes commands.
proof fn lemma_commands_upto_run(s: Seq<InstanceRecord>, g: GeometryTable, a: int, b: int)
    requires
        0 <= a < b <= s.len(),
        forall|m: int| a < m < b ==> s[m].mesh == s[a].mesh,
    ensures
        commands_upto(s, g, b) == commands_upto(s, g, a) + commands_at(s, g, a),
    decreases b,
{
    if b == a + 1 {
    } else {
        lemma_commands_upto_run(s, g, a, b - 1);
        assert(s[b - 2].mesh == s[a].mesh);
        assert(s[b - 1].mesh == s[a].mesh);
        assert(!is_run_start(s, b - 1));
        assert(commands_upto(s, g, b) =~= commands_upto(s, g, a) + commands_at(s, g, a));
    }
}

/// In a sorted list, a maximal run's length equals its key's total count.
proof fn lemma_run_filter_len(s: Seq<InstanceRecord>, a: int, b: int)
    requires
        sorted_by_mesh(s),
        0 <= a < b <= s.len(),
        forall|m: int| a <= m < b ==> s[m].mesh == s[a].mesh,
        is_run_start(s, a),
        b == s.len() || s[b].mesh != s[a].mesh,
    ensures
        filter_mesh(s, s[a].mesh).len() == b - a,
{
    let k = s[a].mesh;
    let p = s.subrange(0, a);
    let mid = s.subrange(a, b);
    let rest = s.subrange(b, s.len() as int);
    assert(s =~= p + (mid + rest));
    lemma_filter_mesh_add(p, mid + rest, k);
    lemma_filter_mesh_add(mid, rest, k);
    assert forall|m: int| 0 <= m < p.len() implies p[m].mesh != k by {
        assert(s[m].mesh <= s[a - 1].mesh);
        assert(s[a - 1].mesh <= s[a].mesh);
    }
    lemma_filter_mesh_none(p, k);
    lemma_filter_mesh_all(mid, k);
    assert forall|m: int| 0 <= m < rest.len() implies rest[m].mesh != k by {
        assert(rest[m] == s[b + m]);
        assert(s[b].mesh <= s[b + m].mesh);
        assert(s[a].mesh <= s[b].mesh);
    }
    lemma_filter_mesh_none(rest, k);
}

/// Batch a flat instance list for indirect drawing.
///
/// Returns the instances stably re-ordered into contiguous runs by mesh key,
/// together with the indirect draw commands those runs give rise to: for each
/// run in order, one command per sub-range the geometry table holds for the
/// run's key, carrying the run's starting offset and length. A key whose
/// entry is absent or empty contributes no command, but its run still
/// advances the offset of the runs after it.
pub fn batch(instances: &Vec<InstanceRecord>, geometry: &GeometryTable) -> (r: BatchResult)
    requires
        instances@.len() <= u32::MAX,
    ensures
        r.sorted_instances@.len() == instances@.len(),
        sorted_by_mesh(r.sorted_instances@),
        forall|k: usize| filter_mesh(r.sorted_instances@, k) == filter_mesh(instances@, k),
        r.commands@ == commands_of(r.sorted_instances@, *geometry),
        instances@.len() == 0 ==> r.commands@.len() == 0,
{
    let mut sorted: Vec<InstanceRecord> = Vec::new();
    let mut idx: usize = 0;
    while idx < instances.len()
        invariant
            idx <= instances@.len(),
            sorted@ == instances@.take(idx as int),
        decreases instances@.len() - idx,
    {
        sorted.push(instances[idx]);
        proof {
            assert(instances@.take(idx + 1) =~= instances@.take(idx as int).push(
                instances@[idx as int],
            ));
        }
        idx = idx + 1;
    }
    proof {
        assert(sorted@ =~= instances@);
    }
    sort_by_mesh(&mut sorted);

    let ghost s = sorted@;
    let mut commands: Vec<IndirectDrawCommand> = Vec::new();
    let mut i: usize = 0;
    while i < sorted.len()
        invariant
            sorted@ == s,
            sorted_by_mesh(s),
            s.len() <= u32::MAX,
            i <= s.len(),
            i == s.len() || is_run_start(s, i as int),
            commands@ == commands_upto(s, *geometry, i as int),
        decreases s.len() - i,
    {
        let k = sorted[i].mesh;
        let start = i;
        i = i + 1;
        while i < sorted.len() && sorted[i].mesh == k
            invariant
                sorted@ == s,
                start < i <= s.len(),
                k == s[start as int].mesh,
                forall|m: int| start <= m < i ==> s[m].mesh == k,
            decreases s.len() - i,
        {
            i = i + 1;
        }
        let first = start as u32;
        let count = (i - start) as u32;
        proof {
            lemma_run_filter_len(s, start as int, i as int);
        }
        match geometry.entry(k) {
            Some(ranges) => {
                let ghost cmds = entry_commands(lookup(*geometry, k), first, count);
                let mut r: usize = 0;
                while r < ranges.len()
                    invariant
                        ranges@ == lookup(*geometry, k),
                        r <= ranges@.len(),
                        cmds == entry_commands(lookup(*geometry, k), first, count),
                        commands@ == commands_upto(s, *geometry, start as int) + cmds.take(r as int),
                    decreases ranges@.len() - r,
                {
                    let range = ranges[r];
                    commands.push(
                        IndirectDrawCommand {
                            first_index: range.start,
                            index_count: range.length,
                            first_instance: first,
                            instance_count: count,
                            vertex_offset: 0,
                        },
                    );
                    proof {
                        assert(cmds.take(r + 1) =~= cmds.take(r as int).push(cmds[r as int]));
                    }
                    r = r + 1;
                }
                proof {
                    assert(cmds.take(ranges@.len() as int) =~= cmds);
                    assert(commands@ == commands_upto(s, *geometry, start as int) + commands_at(
                        s,
                        *geometry,
                        start as int,
                    ));
                }
            },
            None => {
                proof {
                    assert(commands_at(s, *geometry, start as int) =~= Seq::<
                        IndirectDrawCommand,
                    >::empty());
                    assert(commands@ =~= commands_upto(s, *geometry, start as int) + commands_at(
                        s,
                        *geometry,
                        start as int,
                    ));
                }
            },
        }
        proof {
            lemma_commands_upto_run(s, *geometry, start as int, i as int);
        }
    }
    BatchResult { sorted_instances: sorted, commands }
}

/// `c` is the command the run starting at index `i` emits for sub-range `r`
/// of its key's geometry entry.
pub open spec fn run_emits(
    s: Seq<InstanceRecord>,
    g: GeometryTable,
    i: int,
    r: int,
    c: IndirectDrawCommand,
) -> bool {
    &&& 0 <= i < s.len()
    &&& is_run_start(s, i)
    &&& 0 <= r < lookup(g, s[i].mesh).len()
    &&& c == (IndirectDrawCommand {
        first_index: lookup(g, s[i].mesh)[r].start,
        index_count: lookup(g, s[i].mesh)[r].length,
        first_instance: i as u32,
        instance_count: filter_mesh(s, s[i].mesh).len() as u32,
        vertex_offset: 0,
    })
}

/// `c` comes from some run of `s`: some run start and some sub-range of that
/// run's geometry entry account for every one of its fields.
pub open spec fn command_from_run(
    s: Seq<InstanceRecord>,
    g: GeometryTable,
    c: IndirectDrawCommand,
) -> bool {
    exists|i: int, r: int| run_emits(s, g, i, r, c)
}

proof fn lemma_commands_upto_from_run(s: Seq<InstanceRecord>, g: GeometryTable, n: int)
    requires
        0 <= n <= s.len(),
    ensures
        forall|ci: int|
            0 <= ci < commands_upto(s, g, n).len() ==> command_from_run(
                s,
                g,
                #[trigger] commands_upto(s, g, n)[ci],
            ),
    decreases n,
{
    if n > 0 {
        lemma_commands_upto_from_run(s, g, n - 1);
        let prev = commands_upto(s, g, n - 1);
        let at = commands_at(s, g, n - 1);
        assert forall|ci: int| 0 <= ci < commands_upto(s, g, n).len() implies command_from_run(
            s,
            g,
            commands_upto(s, g, n)[ci],
        ) by {
            let c = commands_upto(s, g, n)[ci];
            if ci < prev.len() {
                assert(c == prev[ci]);
            } else {
                let r = ci - prev.len();
                assert(c == at[r]);
                assert(is_run_start(s, n - 1));
                assert(run_emits(s, g, n - 1, r, c));
            }
        }
    }
}

/// Every emitted command belongs to a run: its `first_instance` is a run
/// start, its `instance_count` that run's key count, and its index fields
/// one of that key's geometry sub-ranges.
pub proof fn lemma_commands_from_runs(s: Seq<InstanceRecord>, g: GeometryTable)
    ensures
        forall|ci: int|
            0 <= ci < commands_of(s, g).len() ==> command_from_run(
                s,
                g,
                #[trigger] commands_of(s, g)[ci],
            ),
{
    lemma_commands_upto_from_run(s, g, s.len() as int);
}

/// Commands that share a run share its offset and its length: a command
/// whose `first_instance` is the offset of the run starting at `i` carries
/// that run's key count as its `instance_count`.
pub proof fn lemma_run_commands_share_count(s: Seq<InstanceRecord>, g: GeometryTable, i: int)
    requires
        s.len() <= u32::MAX,
        0 <= i < s.len(),
        is_run_start(s, i),
    ensures
        forall|ci: int|
            0 <= ci < commands_of(s, g).len() && (#[trigger] commands_of(s, g)[ci]).first_instance
                == i as u32 ==> commands_of(s, g)[ci].instance_count == filter_mesh(
                s,
                s[i].mesh,
            ).len() as u32,
{
    lemma_commands_from_runs(s, g);
    assert forall|ci: int|
        0 <= ci < commands_of(s, g).len() && (#[trigger] commands_of(s, g)[ci]).first_instance
            == i as u32 implies commands_of(s, g)[ci].instance_count == filter_mesh(
        s,
        s[i].mesh,
    ).len() as u32 by {
        let c = commands_of(s, g)[ci];
        let (i2, r2) = choose|i2: int, r2: int| run_emits(s, g, i2, r2, c);
        assert(i2 as u32 == i as u32);
        assert(i2 == i);
    }
}

/// A run whose key has no geometry contributes no command: no emitted
/// command carries that run's offset. The offset of a run is its start index
/// in the sorted list, so the runs after a skipped run still account for its
/// length.
pub proof fn lemma_empty_geometry_no_commands(s: Seq<InstanceRecord>, g: GeometryTable, i: int)
    requires
        s.len() <= u32::MAX,
        0 <= i < s.len(),
        is_run_start(s, i),
        lookup(g, s[i].mesh).len() == 0,
    ensures
        forall|ci: int|
            0 <= ci < commands_of(s, g).len() ==> (#[trigger] commands_of(s, g)[ci]).first_instance
                != i as u32,
{
    lemma_commands_from_runs(s, g);
    assert forall|ci: int| 0 <= ci < commands_of(s, g).len() implies (#[trigger] commands_of(
        s,
        g,
    )[ci]).first_instance != i as u32 by {
        let c = commands_of(s, g)[ci];
        let (i2, r2) = choose|i2: int, r2: int| run_emits(s, g, i2, r2, c);
        if c.first_instance == i as u32 {
            assert(i2 as u32 == i as u32);
            assert(i2 == i);
        }
    }
}

/// In a list sorted by mesh key, equal keys are contiguous: everything
/// between two instances of one key carries that key.
pub proof fn lemma_equal_keys_contiguous(s: Seq<InstanceRecord>, i: int, j: int, m: int)
    requires
        sorted_by_mesh(s),
        0 <= i <= j <= m < s.len(),
        s[i].mesh == s[m].mesh,
    ensures
        s[j].mesh == s[i].mesh,
{
}

proof fn lemma_filter_mesh_present(s: Seq<InstanceRecord>, k: usize)
    ensures
        filter_mesh(s, k).len() > 0 <==> exists|i: int| 0 <= i < s.len() && s[i].mesh == k,
    decreases s.len(),
{
    if s.len() == 0 {
    } else {
        lemma_filter_mesh_present(s.drop_first(), k);
        if s[0].mesh == k {
            assert(0 <= 0 < s.len() && s[0].mesh == k);
        } else {
            if filter_mesh(s, k).len() > 0 {
                let i = choose|i: int|
                    0 <= i < s.drop_first().len() && s.drop_first()[i].mesh == k;
                assert(0 <= i + 1 < s.len() && s[i + 1].mesh == k);
            }
            if exists|i: int| 0 <= i < s.len() && s[i].mesh == k {
                let i = choose|i: int| 0 <= i < s.len() && s[i].mesh == k;
                assert(i >= 1);
                assert(0 <= i - 1 < s.drop_first().len() && s.drop_first()[i - 1].mesh == k);
            }
        }
    }
}

/// A list sorted by mesh key is determined by its per-key subsequences: two
/// lists both sorted by mesh key that agree on every key's filtered
/// subsequence are equal. With `batch`'s contract this gives idempotence:
/// batching a list already sorted by mesh key returns it unchanged.
pub proof fn lemma_sorted_filters_unique(s1: Seq<InstanceRecord>, s2: Seq<InstanceRecord>)
    requires
        sorted_by_mesh(s1),
        sorted_by_mesh(s2),
        forall|k: usize| filter_mesh(s1, k) == filter_mesh(s2, k),
    ensures
        s1 == s2,
    decreases s1.len(),
{
    if s1.len() == 0 {
        if s2.len() > 0 {
            let k = s2[0].mesh;
            lemma_filter_mesh_present(s2, k);
            assert(0 <= 0 < s2.len() && s2[0].mesh == k);
            assert(filter_mesh(s2, k).len() > 0);
            assert(filter_mesh(s1, k).len() == 0);
        }
        assert(s1 =~= s2);
    } else {
        let k1 = s1[0].mesh;
        let k2 = s2[0].mesh;
        assert(0 <= 0 < s1.len() && s1[0].mesh == k1);
        lemma_filter_mesh_present(s1, k1);
        lemma_filter_mesh_present(s2, k1);
        lemma_filter_mesh_present(s1, k2);
        lemma_filter_mesh_present(s2, k2);
        assert(s2.len() > 0) by {
            assert(filter_mesh(s2, k1).len() > 0);
            let i = choose|i: int| 0 <= i < s2.len() && s2[i].mesh == k1;
        }
        assert(0 <= 0 < s2.len() && s2[0].mesh == k2);
        assert(k2 <= k1) by {
            assert(filter_mesh(s2, k1).len() > 0);
            let i = choose|i: int| 0 <= i < s2.len() && s2[i].mesh == k1;
            assert(s2[0].mesh <= s2[i].mesh);
        }
        assert(k1 <= k2) by {
            assert(filter_mesh(s1, k2).len() > 0);
            let i = choose|i: int| 0 <= i < s1.len() && s1[i].mesh == k2;
            assert(s1[0].mesh <= s1[i].mesh);
        }
        assert(k1 == k2);
        assert(filter_mesh(s1, k1)[0] == s1[0]);
        assert(filter_mesh(s2, k1)[0] == s2[0]);
        assert(s1[0] == s2[0]);
        let t1 = s1.drop_first();
        let t2 = s2.drop_first();
        assert forall|k: usize| filter_mesh(t1, k) == filter_mesh(t2, k) by {
            if k == k1 {
                assert(filter_mesh(s1, k) == seq![s1[0]] + filter_mesh(t1, k));
                assert(filter_mesh(s2, k) == seq![s2[0]] + filter_mesh(t2, k));
                assert(filter_mesh(t1, k) =~= (seq![s1[0]] + filter_mesh(t1, k)).drop_first());
                assert(filter_mesh(t2, k) =~= (seq![s2[0]] + filter_mesh(t2, k)).drop_first());
            } else {
                assert(filter_mesh(s1, k) == filter_mesh(t1, k));
                assert(filter_mesh(s2, k) == filter_mesh(t2, k));
            }
        }
        lemma_sorted_filters_unique(t1, t2);
        assert(s1 =~= seq![s1[0]] + t1);
        assert(s2 =~= seq![s2[0]] + t2);
    }
}

} // verus!
