//! What a content pack for a demo holds: the map, the WADs and sky its
//! entity lump names, the files the demo precaches, and the gamedir's
//! `liblist.gam`. Finding the files and writing the archive is the
//! caller's part.
use vstd::prelude::*;
use crate::text::{chars_of, lower_chars, lower_chars_exec};
use crate::resources::{
    split_chars, BspInfo, DemoResource, ResourceKind, ResourceView, chars_eq, is_file_kind, label_spec,
    sky_paths, sky_path_spec,
};

verus! {

/// How `pack` reads a Half-Life install.
pub struct PackOptions {
    /// Root of the Half-Life install, the folder holding `dod/` and `valve/`.
    pub game_root: String,
    pub gamedir: String,
    pub fallback: String,
    /// Sounds are most of the payload, and the preview has no audio.
    pub include_sound: bool,
    pub verbose: bool,
}

pub open spec fn pack_view(o: PackOptions) -> (Seq<char>, Seq<char>, Seq<char>, bool, bool) {
    (o.game_root@, o.gamedir@, o.fallback@, o.include_sound, o.verbose)
}

impl Default for PackOptions {
    fn default() -> (r: Self)
        ensures
            pack_view(r) == (Seq::<char>::empty(), "dod"@, "valve"@, false, false),
    {
        let mut gamedir = String::new();
        gamedir.append("dod");
        let mut fallback = String::new();
        fallback.append("valve");
        PackOptions { game_root: String::new(), gamedir, fallback, include_sound: false, verbose: false }
    }
}

/// A file the pack wants.
pub struct Wanted {
    pub kind: String,
    /// Relative to the gamedir.
    pub path: String,
    /// The size the server declared; 0 when unknown (WADs, sky, liblist).
    pub declared: u32,
    /// Optional files do not count as missing when absent.
    pub optional: bool,
}

/// A wanted file as contracts speak of it: kind, path, declared size,
/// whether optional.
pub open spec fn wanted_view(w: Wanted) -> (Seq<char>, Seq<char>, u32, bool) {
    (w.kind@, w.path@, w.declared, w.optional)
}

pub open spec fn wanted_views(ws: Seq<Wanted>) -> Seq<(Seq<char>, Seq<char>, u32, bool)> {
    ws.map_values(|w: Wanted| wanted_view(w))
}

pub open spec fn bsp_suffix() -> Seq<char> {
    seq!['.', 'b', 's', 'p']
}

/// A map name without its `.bsp` suffixes (`str::trim_end_matches`).
pub open spec fn map_stem(s: Seq<char>) -> Seq<char>
    decreases s.len(),
{
    if s.len() >= 4 && s.skip(s.len() - 4) == bsp_suffix() {
        map_stem(s.take(s.len() - 4))
    } else {
        s
    }
}

/// Why a pack cannot be planned.
#[derive(Clone, Copy, Debug, PartialEq, Eq, Structural)]
pub enum PackError {
    /// The demo header names no map.
    NoMapName,
}

impl PackError {
    pub fn message(&self) -> (r: String)
        ensures
            r@ == "demo header has no map name"@,
    {
        let mut s = String::new();
        s.append("demo header has no map name");
        s
    }
}

/// The map name a pack is built for: the header's map name without its
/// `.bsp` suffixes; an error when nothing is left.
pub fn pack_map_name(header_map_name: &str) -> (r: Result<String, PackError>)
    ensures
        map_stem(header_map_name@).len() == 0 ==> r == Err::<String, PackError>(
            PackError::NoMapName,
        ),
        map_stem(header_map_name@).len() > 0 ==> (r matches Ok(m) && m@ == map_stem(
            header_map_name@,
        )),
{
    let cs = chars_of(header_map_name);
    let mut n = cs.len();
    assert(cs@.take(n as int) =~= cs@);
    while n >= 4 && cs[n - 4] == '.' && cs[n - 3] == 'b' && cs[n - 2] == 's' && cs[n - 1] == 'p'
        invariant
            n <= cs@.len(),
            map_stem(cs@) == map_stem(cs@.take(n as int)),
        decreases n,
    {
        proof {
            let t = cs@.take(n as int);
            assert(t.skip(t.len() - 4) =~= bsp_suffix());
            assert(t.take(t.len() - 4) =~= cs@.take(n - 4));
        }
        n = n - 4;
    }
    proof {
        let t = cs@.take(n as int);
        if t.len() >= 4 {
            assert(t.skip(t.len() - 4) != bsp_suffix()) by {
                if t.skip(t.len() - 4) == bsp_suffix() {
                    assert(t.skip(t.len() - 4)[0] == cs@[n - 4]);
                    assert(t.skip(t.len() - 4)[1] == cs@[n - 3]);
                    assert(t.skip(t.len() - 4)[2] == cs@[n - 2]);
                    assert(t.skip(t.len() - 4)[3] == cs@[n - 1]);
                }
            }
        }
        assert(cs@.take(cs@.len() as int) =~= cs@);
    }
    if n == 0 {
        return Err(PackError::NoMapName);
    }
    let mut m = String::new();
    let mut i: usize = 0;
    while i < n
        invariant
            i <= n <= cs@.len(),
            m@ == cs@.take(i as int),
        decreases n - i,
    {
        crate::text::push_char(&mut m, cs[i]);
        proof {
            assert(cs@.take(i + 1) =~= cs@.take(i as int).push(cs@[i as int]));
        }
        i = i + 1;
    }
    Ok(m)
}

/// `maps/{map}.bsp`.
pub open spec fn bsp_rel_spec(map: Seq<char>) -> Seq<char> {
    "maps/"@ + map + ".bsp"@
}

/// Where the map's BSP lies, relative to the gamedir.
pub fn bsp_rel_path(map: &str) -> (r: String)
    ensures
        r@ == bsp_rel_spec(map@),
{
    let mut s = String::new();
    s.append("maps/");
    s.append(map);
    s.append(".bsp");
    assert(s@ =~= bsp_rel_spec(map@));
    s
}

/// Whether the pack takes a resource: files only, and sounds only when
/// asked for.
pub open spec fn takes_resource(r: ResourceView, include_sound: bool) -> bool {
    is_file_kind(r.kind) && !(r.kind == ResourceKind::Sound && !include_sound)
}

/// A resource as a wanted file. Generic files and event scripts are
/// optional: servers precache things clients legitimately lack.
pub open spec fn resource_wanted(r: ResourceView) -> (Seq<char>, Seq<char>, u32, bool) {
    (label_spec(r.kind), r.path, r.size, r.kind is Generic || r.kind is EventScript)
}

/// The wanted files that the resources give, in their order.
pub open spec fn resources_wanted(rs: Seq<ResourceView>, include_sound: bool) -> Seq<
    (Seq<char>, Seq<char>, u32, bool),
>
    decreases rs.len(),
{
    if rs.len() == 0 {
        Seq::empty()
    } else {
        let prev = resources_wanted(rs.drop_last(), include_sound);
        if takes_resource(rs.last(), include_sound) {
            prev.push(resource_wanted(rs.last()))
        } else {
            prev
        }
    }
}

/// Each file the precached resources give comes from one of the resources
/// the pack takes, with its kind's label, its path and its declared size,
/// and is optional exactly when that resource is a generic file or an event
/// script (servers precache such files that clients legitimately lack).
pub proof fn law_precached_files_optional(rs: Seq<ResourceView>, include_sound: bool)
    ensures
        forall|j: int|
            #![trigger resources_wanted(rs, include_sound)[j]]
            0 <= j < resources_wanted(rs, include_sound).len() ==> exists|i: int|
                #![trigger rs[i]]
                0 <= i < rs.len() && takes_resource(rs[i], include_sound) && resources_wanted(
                    rs,
                    include_sound,
                )[j] == (label_spec(rs[i].kind), rs[i].path, rs[i].size, (rs[i].kind
                    == ResourceKind::Generic || rs[i].kind == ResourceKind::EventScript)),
    decreases rs.len(),
{
    if rs.len() > 0 {
        let init = rs.drop_last();
        law_precached_files_optional(init, include_sound);
        assert forall|j: int| #![trigger resources_wanted(rs, include_sound)[j]] 0 <= j < resources_wanted(rs, include_sound).len() implies exists|i: int|
            #![trigger rs[i]]
            0 <= i < rs.len() && takes_resource(rs[i], include_sound) && resources_wanted(rs, include_sound)[j] == (label_spec(
                rs[i].kind,
            ), rs[i].path, rs[i].size, (rs[i].kind == ResourceKind::Generic || rs[i].kind
                == ResourceKind::EventScript)) by {
            if j < resources_wanted(init, include_sound).len() {
                assert(resources_wanted(rs, include_sound)[j] == resources_wanted(init, include_sound)[j]);
                let i = choose|i: int|
                    #![trigger init[i]]
                    0 <= i < init.len() && takes_resource(init[i], include_sound) && resources_wanted(init, include_sound)[j] == (
                    label_spec(init[i].kind), init[i].path, init[i].size, (init[i].kind
                        == ResourceKind::Generic || init[i].kind == ResourceKind::EventScript));
                assert(init[i] == rs[i]);
            } else {
                let i = rs.len() - 1;
                assert(rs[i] == rs.last());
                assert(takes_resource(rs[i], include_sound));
                assert(resources_wanted(rs, include_sound)[j] == resource_wanted(rs[i]));
            }
        }
    }
}

/// How many sounds the pack leaves out.
pub open spec fn skipped_sounds(rs: Seq<ResourceView>, include_sound: bool) -> nat
    decreases rs.len(),
{
    if rs.len() == 0 {
        0
    } else {
        skipped_sounds(rs.drop_last(), include_sound) + if rs.last().kind == ResourceKind::Sound
            && !include_sound {
            1nat
        } else {
            0nat
        }
    }
}

/// The sky faces as wanted files, all optional: only some of the six faces
/// in two formats exist.
pub open spec fn sky_wanted(sky: Option<Seq<char>>) -> Seq<(Seq<char>, Seq<char>, u32, bool)> {
    match sky {
        Some(s) => Seq::new(12, |i: int| ("sky"@, sky_path_spec(s, i / 2, i % 2), 0u32, true)),
        None => Seq::empty(),
    }
}

/// Every file the pack asks for, duplicates included, in order: the map,
/// the WADs, the sky, the precached files, `liblist.gam`.
pub open spec fn pack_candidates(
    map: Seq<char>,
    wads: Seq<Seq<char>>,
    sky: Option<Seq<char>>,
    rs: Seq<ResourceView>,
    include_sound: bool,
) -> Seq<(Seq<char>, Seq<char>, u32, bool)> {
    seq![("map"@, bsp_rel_spec(map), 0u32, false)] + wads.map_values(
        |w: Seq<char>| ("wad"@, w, 0u32, false),
    ) + sky_wanted(sky) + resources_wanted(rs, include_sound) + seq![
        ("meta"@, "liblist.gam"@, 0u32, true),
    ]
}

/// The files of `c`, each path once whatever its case, where it first
/// occurs.
pub open spec fn dedup_paths(c: Seq<(Seq<char>, Seq<char>, u32, bool)>) -> Seq<
    (Seq<char>, Seq<char>, u32, bool),
>
    decreases c.len(),
{
    if c.len() == 0 {
        Seq::empty()
    } else {
        dedup_step(dedup_paths(c.drop_last()), c.last())
    }
}

/// `x` added to `prev` unless a file of the same path, whatever its case,
/// is there.
pub open spec fn dedup_step(
    prev: Seq<(Seq<char>, Seq<char>, u32, bool)>,
    x: (Seq<char>, Seq<char>, u32, bool),
) -> Seq<(Seq<char>, Seq<char>, u32, bool)> {
    if prev.map_values(|w: (Seq<char>, Seq<char>, u32, bool)| lower_chars(w.1)).contains(
        lower_chars(x.1),
    ) {
        prev
    } else {
        prev.push(x)
    }
}

/// The pack's wanted list so far, with the lowercase forms of its paths.
struct WantedList {
    items: Vec<Wanted>,
    seen: Vec<Vec<char>>,
}

impl WantedList {
    spec fn wf(&self) -> bool {
        &&& self.seen@.len() == self.items@.len()
        &&& forall|k: int|
            0 <= k < self.items@.len() ==> #[trigger] self.seen@[k]@ == lower_chars(
                self.items@[k].path@,
            )
    }

    /// Adds `w` unless a file of the same path, whatever its case, is there.
    fn push(&mut self, w: Wanted)
        requires
            old(self).wf(),
        ensures
            final(self).wf(),
            wanted_views(final(self).items@) == dedup_step(
                wanted_views(old(self).items@),
                wanted_view(w),
            ),
    {
        let pc = chars_of(w.path.as_str());
        let l = lower_chars_exec(&pc);
        let mut i: usize = 0;
        while i < self.seen.len()
            invariant
                self.wf(),
                i <= self.seen@.len(),
                l@ == lower_chars(w.path@),
                forall|k: int| 0 <= k < i ==> self.seen@[k]@ != l@,
            decreases self.seen@.len() - i,
        {
            if chars_eq(&self.seen[i], &l) {
                proof {
                    let lp = wanted_views(self.items@).map_values(
                        |x: (Seq<char>, Seq<char>, u32, bool)| lower_chars(x.1),
                    );
                    assert(lp[i as int] == l@);
                    assert(lp.contains(l@));
                }
                return;
            }
            i = i + 1;
        }
        proof {
            let lp = wanted_views(self.items@).map_values(
                |x: (Seq<char>, Seq<char>, u32, bool)| lower_chars(x.1),
            );
            if lp.contains(l@) {
                let k = choose|k: int| 0 <= k < lp.len() && #[trigger] lp[k] == l@;
                assert(self.seen@[k]@ == l@);
            }
        }
        let ghost before = self.items@;
        self.items.push(w);
        self.seen.push(l);
        proof {
            assert(wanted_views(self.items@) =~= wanted_views(before).push(wanted_view(w)));
        }
    }
}

/// No two files share a path, whatever the case.
pub open spec fn distinct_paths(s: Seq<(Seq<char>, Seq<char>, u32, bool)>) -> bool {
    forall|i: int, j: int|
        0 <= i < j < s.len() ==> lower_chars(#[trigger] s[i].1) != lower_chars(#[trigger] s[j].1)
}

/// A pack asks for each path once, whatever its case.
pub proof fn law_pack_paths_distinct(c: Seq<(Seq<char>, Seq<char>, u32, bool)>)
    ensures
        distinct_paths(dedup_paths(c)),
    decreases c.len(),
{
    if c.len() > 0 {
        law_pack_paths_distinct(c.drop_last());
        let prev = dedup_paths(c.drop_last());
        let x = c.last();
        let lp = prev.map_values(|w: (Seq<char>, Seq<char>, u32, bool)| lower_chars(w.1));
        if !lp.contains(lower_chars(x.1)) {
            let r = prev.push(x);
            assert forall|i: int, j: int| 0 <= i < j < r.len() implies lower_chars(#[trigger] r[i].1)
                != lower_chars(#[trigger] r[j].1) by {
                assert(r[i] == prev[i]);
                if j == prev.len() {
                    assert(lp[i] == lower_chars(prev[i].1));
                } else {
                    assert(r[j] == prev[j]);
                }
            }
        }
    }
}

proof fn lemma_dedup_push(
    c: Seq<(Seq<char>, Seq<char>, u32, bool)>,
    x: (Seq<char>, Seq<char>, u32, bool),
)
    ensures
        dedup_paths(c.push(x)) == dedup_step(dedup_paths(c), x),
{
    assert(c.push(x).drop_last() =~= c);
}

fn wanted(kind: &str, path: String, declared: u32, optional: bool) -> (r: Wanted)
    ensures
        wanted_view(r) == (kind@, path@, declared, optional),
{
    let mut k = String::new();
    k.append(kind);
    assert(k@ =~= kind@);
    Wanted { kind: k, path, declared, optional }
}

/// The WADs of an entity lump, when it was read.
pub open spec fn info_wads(bsp: Option<&BspInfo>) -> Seq<Seq<char>> {
    match bsp {
        Some(b) => b.wads@.map_values(|w: String| w@),
        None => Seq::empty(),
    }
}

/// The sky of an entity lump, when it was read and names one.
pub open spec fn info_sky(bsp: Option<&BspInfo>) -> Option<Seq<char>> {
    match bsp {
        Some(b) => match b.skyname {
            Some(s) => Some(s@),
            None => None,
        },
        None => None,
    }
}

/// Plans a content pack for `map`: the files it wants, each path once
/// whatever its case, and how many precached sounds it leaves out. `bsp` is
/// what the map's entity lump says, when the BSP was found and read.
#[verifier::rlimit(40)]
pub fn plan_pack(
    map: &str,
    bsp: Option<&BspInfo>,
    res: &Vec<DemoResource>,
    include_sound: bool,
) -> (r: (Vec<Wanted>, usize))
    ensures
        wanted_views(r.0@) == dedup_paths(
            pack_candidates(
                map@,
                info_wads(bsp),
                info_sky(bsp),
                res@.map_values(|d: DemoResource| d@),
                include_sound,
            ),
        ),
        r.1 == skipped_sounds(res@.map_values(|d: DemoResource| d@), include_sound),
        distinct_paths(wanted_views(r.0@)),
{
    proof {
        reveal_strlit("map");
        reveal_strlit("wad");
        reveal_strlit("sky");
        reveal_strlit("meta");
        reveal_strlit("liblist.gam");
    }
    let ghost wads_v = info_wads(bsp);
    let ghost sky_v = info_sky(bsp);
    let ghost rs = res@.map_values(|d: DemoResource| d@);
    let mut list = WantedList { items: Vec::new(), seen: Vec::new() };
    let ghost mut c: Seq<(Seq<char>, Seq<char>, u32, bool)> = Seq::empty();
    proof {
        assert(wanted_views(list.items@) =~= dedup_paths(c));
    }
    // The map itself.
    let w = wanted("map", bsp_rel_path(map), 0, false);
    list.push(w);
    proof {
        lemma_dedup_push(c, wanted_view(w));
        c = c.push(wanted_view(w));
    }
    // The WADs and the sky, from the entity lump.
    if let Some(info) = bsp {
        let mut i: usize = 0;
        while i < info.wads.len()
            invariant
                list.wf(),
                i <= info.wads@.len(),
                wads_v == info.wads@.map_values(|w: String| w@),
                c == seq![("map"@, bsp_rel_spec(map@), 0u32, false)] + wads_v.take(i as int).map_values(
                    |w: Seq<char>| ("wad"@, w, 0u32, false),
                ),
                wanted_views(list.items@) == dedup_paths(c),
            decreases info.wads@.len() - i,
        {
            let w = wanted("wad", info.wads[i].clone(), 0, false);
            list.push(w);
            proof {
                lemma_dedup_push(c, wanted_view(w));
                let c2 = c.push(wanted_view(w));
                assert(c2 =~= seq![("map"@, bsp_rel_spec(map@), 0u32, false)] + wads_v.take(
                    i + 1,
                ).map_values(|w: Seq<char>| ("wad"@, w, 0u32, false)));
                c = c2;
            }
            i = i + 1;
        }
        proof {
            assert(wads_v.take(wads_v.len() as int) =~= wads_v);
        }
        if let Some(sky) = &info.skyname {
            let paths = sky_paths(sky.as_str());
            let ghost base = c;
            let mut k: usize = 0;
            while k < paths.len()
                invariant
                    list.wf(),
                    k <= paths@.len(),
                    paths@.len() == 12,
                    forall|j: int| 0 <= j < 12 ==> #[trigger] paths@[j]@ == sky_path_spec(sky@, j / 2, j % 2),
                    c == base + sky_wanted(Some(sky@)).take(k as int),
                    wanted_views(list.items@) == dedup_paths(c),
                decreases paths@.len() - k,
            {
                let w = wanted("sky", paths[k].clone(), 0, true);
                list.push(w);
                proof {
                    lemma_dedup_push(c, wanted_view(w));
                let c2 = c.push(wanted_view(w));
                    assert(c2 =~= base + sky_wanted(Some(sky@)).take(k + 1));
                    c = c2;
                }
                k = k + 1;
            }
            proof {
                assert(sky_wanted(Some(sky@)).take(12) =~= sky_wanted(Some(sky@)));
            }
        } else {
            proof {
                assert(c + sky_wanted(None) =~= c);
            }
        }
    } else {
        proof {
            assert(wads_v.map_values(|w: Seq<char>| ("wad"@, w, 0u32, false)) =~= Seq::<
                (Seq<char>, Seq<char>, u32, bool),
            >::empty());
            assert(c + wads_v.map_values(|w: Seq<char>| ("wad"@, w, 0u32, false)) + sky_wanted(sky_v) =~= c);
        }
    }
    let ghost base = c;
    assert(base == seq![("map"@, bsp_rel_spec(map@), 0u32, false)] + wads_v.map_values(
        |w: Seq<char>| ("wad"@, w, 0u32, false),
    ) + sky_wanted(sky_v));
    // Everything the demo precached.
    let mut skipped: usize = 0;
    let mut i: usize = 0;
    while i < res.len()
        invariant
            list.wf(),
            i <= res@.len(),
            rs == res@.map_values(|d: DemoResource| d@),
            c == base + resources_wanted(rs.take(i as int), include_sound),
            wanted_views(list.items@) == dedup_paths(c),
            skipped == skipped_sounds(rs.take(i as int), include_sound),
            skipped <= i,
        decreases res@.len() - i,
    {
        let r = &res[i];
        proof {
            assert(rs.take(i + 1).drop_last() =~= rs.take(i as int));
            assert(rs.take(i + 1).last() == r@);
        }
        if r.kind.is_file() {
            if r.kind == ResourceKind::Sound && !include_sound {
                skipped = skipped + 1;
            } else {
                let optional = match r.kind {
                    ResourceKind::Generic => true,
                    ResourceKind::EventScript => true,
                    _ => false,
                };
                let w = Wanted { kind: r.kind.label(), path: r.path.clone(), declared: r.size, optional };
                list.push(w);
                proof {
                    lemma_dedup_push(c, wanted_view(w));
        c = c.push(wanted_view(w));
                    assert(c =~= base + resources_wanted(rs.take(i + 1), include_sound));
                }
            }
        }
        i = i + 1;
    }
    proof {
        assert(rs.take(rs.len() as int) =~= rs);
    }
    // The gamedir's metadata.
    let mut lib = String::new();
    lib.append("liblist.gam");
    let w = wanted("meta", lib, 0, true);
    list.push(w);
    proof {
        lemma_dedup_push(c, wanted_view(w));
        c = c.push(wanted_view(w));
        assert(c =~= pack_candidates(map@, wads_v, sky_v, rs, include_sound));
        law_pack_paths_distinct(c);
    }
    (list.items, skipped)
}

/// The non-empty parts, in order.
pub open spec fn non_empty(parts: Seq<Seq<char>>) -> Seq<Seq<char>>
    decreases parts.len(),
{
    if parts.len() == 0 {
        Seq::empty()
    } else {
        let p = non_empty(parts.drop_last());
        if parts.last().len() > 0 {
            p.push(parts.last())
        } else {
            p
        }
    }
}

/// The components of a relative path: its parts between slashes, empty
/// ones left out.
pub fn path_components(rel: &str) -> (r: Vec<String>)
    ensures
        r@.map_values(|c: String| c@) == non_empty(split_chars(rel@, '/')),
{
    let v = chars_of(rel);
    let mut out: Vec<String> = Vec::new();
    let mut cur: Vec<char> = Vec::new();
    let ghost mut done: Seq<Seq<char>> = Seq::empty();
    proof {
        assert(v@.take(0) =~= Seq::<char>::empty());
        assert(done.push(cur@) =~= seq![Seq::<char>::empty()]);
        assert(out@.map_values(|c: String| c@) =~= Seq::<Seq<char>>::empty());
    }
    let mut i: usize = 0;
    while i < v.len()
        invariant
            i <= v@.len(),
            split_chars(v@.take(i as int), '/') == done.push(cur@),
            out@.map_values(|c: String| c@) == non_empty(done),
        decreases v@.len() - i,
    {
        let c = v[i];
        proof {
            assert(v@.take(i + 1).drop_last() =~= v@.take(i as int));
        }
        if c == '/' {
            if cur.len() > 0 {
                let ghost before = out@;
                out.push(string_of_chars(&cur));
                proof {
                    assert(out@.map_values(|c: String| c@) =~= before.map_values(|c: String| c@).push(cur@));
                }
            }
            proof {
                assert(done.push(cur@).drop_last() =~= done);
                done = done.push(cur@);
            }
            cur = Vec::new();
            proof {
                assert(done.push(cur@) =~= split_chars(v@.take(i + 1), '/'));
            }
        } else {
            let ghost old_cur = cur@;
            cur.push(c);
            proof {
                let p = split_chars(v@.take(i as int), '/');
                assert(p.update(p.len() - 1, p.last().push(c)) =~= done.push(cur@));
            }
        }
        i = i + 1;
    }
    if cur.len() > 0 {
        let ghost before = out@;
        out.push(string_of_chars(&cur));
        proof {
            assert(out@.map_values(|c: String| c@) =~= before.map_values(|c: String| c@).push(cur@));
        }
    }
    proof {
        assert(v@.take(v@.len() as int) =~= v@);
        assert(done.push(cur@).drop_last() =~= done);
    }
    out
}

fn string_of_chars(cs: &Vec<char>) -> (r: String)
    ensures
        r@ == cs@,
{
    let r = crate::text::string_of(cs.as_slice(), 0, cs.len());
    assert(cs@.subrange(0, cs@.len() as int) =~= cs@);
    r
}

/// Whether two names are the same but for ASCII case, as a directory
/// entry is matched when a path is looked up case-insensitively.
pub fn same_name_ci(a: &str, b: &str) -> (r: bool)
    ensures
        r == (lower_chars(a@) == lower_chars(b@)),
{
    let x = lower_chars_exec(&chars_of(a));
    let y = lower_chars_exec(&chars_of(b));
    chars_eq(&x, &y)
}

/// Whether a file found for a resource differs in size from what the
/// server declared (a size of 0 declares nothing): likely the wrong version,
/// which may desync playback. The length is taken as the `u32` the wire
/// format holds.
pub fn differs_from_declared(declared: u32, actual_len: usize) -> (r: bool)
    ensures
        r == (declared > 0 && actual_len as u32 != declared),
{
    declared > 0 && #[verifier::truncate] (actual_len as u32) != declared
}

} // verus!
