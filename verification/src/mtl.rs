//! Wavefront MTL text: `newmtl` blocks and the raw values of their `Kd`, `Ks`, `Ns` and
//! `map_Kd` lines.
use crate::bytes::{find_byte, find_byte_from, lemma_find_byte, trim_span, trimmed_from};
use vstd::prelude::*;

verus! {

// ------------------------------------------------------------------ keys

/// A byte with ASCII capitals made small.
pub open spec fn lower(b: u8) -> u8 {
    if 0x41 <= b <= 0x5a {
        (b + 32) as u8
    } else {
        b
    }
}

/// `w` lower-cases to the ASCII text `t`: each ASCII letter in either case, and each `k`
/// also as the Kelvin sign U+212A, the one other character that lower-cases into ASCII.
pub open spec fn key_is(w: Seq<u8>, t: Seq<u8>) -> bool
    decreases t.len(),
{
    if t.len() == 0 {
        w.len() == 0
    } else if t[0] == 0x6b && w.len() >= 3 && w[0] == 0xe2 && w[1] == 0x84 && w[2] == 0xaa {
        key_is(w.subrange(3, w.len() as int), t.subrange(1, t.len() as int))
    } else {
        w.len() > 0 && lower(w[0]) == t[0] && key_is(
            w.subrange(1, w.len() as int),
            t.subrange(1, t.len() as int),
        )
    }
}

/// Whether `w` lower-cases to `t`.
fn key_is_exec(w: &[u8], t: &[u8]) -> (r: bool)
    ensures
        r == key_is(w@, t@),
    decreases t.len(),
{
    if t.len() == 0 {
        return w.len() == 0;
    }
    let wr = w.len();
    let tr = t.len();
    if t[0] == 0x6b && wr >= 3 && w[0] == 0xe2 && w[1] == 0x84 && w[2] == 0xaa {
        return key_is_exec(
            vstd::slice::slice_subrange(w, 3, wr),
            vstd::slice::slice_subrange(t, 1, tr),
        );
    }
    if wr == 0 {
        return false;
    }
    let b = w[0];
    let l = if 0x41 <= b && b <= 0x5a {
        b + 32
    } else {
        b
    };
    if l != t[0] {
        return false;
    }
    key_is_exec(vstd::slice::slice_subrange(w, 1, wr), vstd::slice::slice_subrange(t, 1, tr))
}

/// `newmtl`
pub open spec fn key_newmtl() -> Seq<u8> {
    seq![0x6eu8, 0x65, 0x77, 0x6d, 0x74, 0x6c]
}

/// `kd`
pub open spec fn key_kd() -> Seq<u8> {
    seq![0x6bu8, 0x64]
}

/// `ks`
pub open spec fn key_ks() -> Seq<u8> {
    seq![0x6bu8, 0x73]
}

/// `ns`
pub open spec fn key_ns() -> Seq<u8> {
    seq![0x6eu8, 0x73]
}

/// `map_kd`
pub open spec fn key_map_kd() -> Seq<u8> {
    seq![0x6du8, 0x61, 0x70, 0x5f, 0x6b, 0x64]
}

// ------------------------------------------------------------------ the materials

/// A material's values as they stand in the file: the text after `Kd`, `Ks`, `Ns` and
/// `map_Kd` on the last line of each in its block.
pub struct MtlModel {
    pub kd: Option<Seq<u8>>,
    pub ks: Option<Seq<u8>>,
    pub ns: Option<Seq<u8>>,
    pub map_kd: Option<Seq<u8>>,
}

/// A material that `newmtl` opened and nothing has set yet.
pub open spec fn fresh_material() -> MtlModel {
    MtlModel { kd: None, ks: None, ns: None, map_kd: None }
}

/// The reader's state: the materials by name and the one lines now apply to.
pub struct MtlState {
    pub materials: Map<Seq<u8>, MtlModel>,
    pub current: Option<Seq<u8>>,
}

/// One line, trimmed: blank lines and `#` comments are skipped; the key is the text before
/// the first space, compared lower-cased, and the value the trimmed rest. `newmtl` opens
/// (or reopens, empty) the material the value names; `kd`, `ks`, `ns` and `map_kd` set a
/// value of the current material; any other key, or a key before the first `newmtl`,
/// changes nothing.
pub open spec fn mtl_line(line: Seq<u8>, st: MtlState) -> MtlState {
    let tl = trimmed_from(line, 0);
    if tl.len() == 0 || tl[0] == 0x23 {
        st
    } else {
        let sp = find_byte(tl, 0, 0x20);
        let key = tl.subrange(0, sp);
        let value = if sp < tl.len() {
            trimmed_from(tl, sp + 1)
        } else {
            Seq::<u8>::empty()
        };
        if key_is(key, key_newmtl()) {
            MtlState { materials: st.materials.insert(value, fresh_material()), current: Some(value) }
        } else {
            match st.current {
                Some(c) => {
                    if st.materials.contains_key(c) {
                        let m = st.materials[c];
                        if key_is(key, key_kd()) {
                            MtlState { materials: st.materials.insert(c, MtlModel { kd: Some(value), ..m }), ..st }
                        } else if key_is(key, key_ks()) {
                            MtlState { materials: st.materials.insert(c, MtlModel { ks: Some(value), ..m }), ..st }
                        } else if key_is(key, key_ns()) {
                            MtlState { materials: st.materials.insert(c, MtlModel { ns: Some(value), ..m }), ..st }
                        } else if key_is(key, key_map_kd()) {
                            MtlState { materials: st.materials.insert(c, MtlModel { map_kd: Some(value), ..m }), ..st }
                        } else {
                            st
                        }
                    } else {
                        st
                    }
                },
                None => st,
            }
        }
    }
}

/// The lines of `t` from `pos` on, each ended by `\n` or by the end of the text.
pub open spec fn mtl_lines(t: Seq<u8>, pos: int, st: MtlState) -> MtlState
    decreases t.len() + 1 - pos,
{
    if 0 <= pos <= t.len() {
        proof {
            lemma_find_byte(t, pos, 0x0a);
        }
        if find_byte(t, pos, 0x0a) < t.len() {
            mtl_lines(
                t,
                find_byte(t, pos, 0x0a) + 1,
                mtl_line(t.subrange(pos, find_byte(t, pos, 0x0a)), st),
            )
        } else {
            mtl_line(t.subrange(pos, find_byte(t, pos, 0x0a)), st)
        }
    } else {
        st
    }
}

/// The materials of an MTL text.
pub open spec fn mtl_file(text: Seq<u8>) -> Map<Seq<u8>, MtlModel> {
    mtl_lines(text, 0, MtlState { materials: Map::empty(), current: None }).materials
}

/// A material: its name and the raw text of its values.
pub struct MtlMaterial {
    pub name: Vec<u8>,
    pub kd: Option<Vec<u8>>,
    pub ks: Option<Vec<u8>>,
    pub ns: Option<Vec<u8>>,
    pub map_kd: Option<Vec<u8>>,
}

/// The view of an optional byte string.
pub open spec fn opt_bytes(o: Option<Vec<u8>>) -> Option<Seq<u8>> {
    match o {
        Some(v) => Some(v@),
        None => None,
    }
}

/// The values of a material.
pub open spec fn material_model(m: MtlMaterial) -> MtlModel {
    MtlModel {
        kd: opt_bytes(m.kd),
        ks: opt_bytes(m.ks),
        ns: opt_bytes(m.ns),
        map_kd: opt_bytes(m.map_kd),
    }
}

/// The materials of a list by name, later entries over earlier ones.
pub open spec fn materials_map(v: Seq<MtlMaterial>) -> Map<Seq<u8>, MtlModel>
    decreases v.len(),
{
    if v.len() == 0 {
        Map::empty()
    } else {
        materials_map(v.drop_last()).insert(v.last().name@, material_model(v.last()))
    }
}

/// No two materials of the list share a name.
pub open spec fn distinct_names(v: Seq<MtlMaterial>) -> bool {
    forall|i: int, j: int| 0 <= i < j < v.len() ==> v[i].name@ != v[j].name@
}

/// A name is in the map exactly when some material has it, and then it maps to that
/// material's values.
proof fn lemma_materials_map(v: Seq<MtlMaterial>)
    requires
        distinct_names(v),
    ensures
        forall|n: Seq<u8>|
            materials_map(v).contains_key(n) <==> exists|i: int|
                0 <= i < v.len() && (#[trigger] v[i]).name@ == n,
        forall|i: int|
            0 <= i < v.len() ==> materials_map(v)[(#[trigger] v[i]).name@] == material_model(
                v[i],
            ),
    decreases v.len(),
{
    if v.len() > 0 {
        let d = v.drop_last();
        assert(distinct_names(d));
        lemma_materials_map(d);
        assert forall|n: Seq<u8>|
            materials_map(v).contains_key(n) <==> exists|i: int|
                0 <= i < v.len() && (#[trigger] v[i]).name@ == n by {
            if materials_map(v).contains_key(n) && n != v.last().name@ {
                let i = choose|i: int| 0 <= i < d.len() && (#[trigger] d[i]).name@ == n;
                assert(v[i] == d[i]);
            }
            if exists|i: int| 0 <= i < v.len() && (#[trigger] v[i]).name@ == n {
                let i = choose|i: int| 0 <= i < v.len() && (#[trigger] v[i]).name@ == n;
                if i < v.len() - 1 {
                    assert(d[i] == v[i]);
                }
            }
        }
        assert forall|i: int|
            0 <= i < v.len() implies materials_map(v)[(#[trigger] v[i]).name@] == material_model(
            v[i],
        ) by {
            if i < v.len() - 1 {
                assert(d[i] == v[i]);
                assert(v[i].name@ != v.last().name@);
            }
        }
    }
}

/// Replacing a material by one of the same name replaces its values in the map.
proof fn lemma_materials_map_update(v: Seq<MtlMaterial>, k: int, x: MtlMaterial)
    requires
        distinct_names(v),
        0 <= k < v.len(),
        x.name@ == v[k].name@,
    ensures
        distinct_names(v.update(k, x)),
        materials_map(v.update(k, x)) == materials_map(v).insert(x.name@, material_model(x)),
    decreases v.len(),
{
    let u = v.update(k, x);
    assert(distinct_names(u)) by {
        assert forall|i: int, j: int| 0 <= i < j < u.len() implies u[i].name@ != u[j].name@ by {
            assert(u[i].name@ == v[i].name@);
            assert(u[j].name@ == v[j].name@);
        }
    }
    if k == v.len() - 1 {
        assert(u.drop_last() =~= v.drop_last());
        assert(materials_map(u) =~= materials_map(v).insert(x.name@, material_model(x)));
    } else {
        let d = v.drop_last();
        assert(u.drop_last() =~= d.update(k, x));
        assert(distinct_names(d));
        lemma_materials_map_update(d, k, x);
        assert(v.last().name@ != x.name@);
        assert(materials_map(u) =~= materials_map(v).insert(x.name@, material_model(x)));
    }
}

/// Whether two byte strings are equal.
fn bytes_eq(a: &[u8], b: &[u8]) -> (r: bool)
    ensures
        r == (a@ == b@),
{
    if a.len() != b.len() {
        return false;
    }
    let mut i: usize = 0;
    while i < a.len()
        invariant
            a.len() == b.len(),
            i <= a.len(),
            forall|k: int| 0 <= k < i ==> a@[k] == b@[k],
        decreases a.len() - i,
    {
        if a[i] != b[i] {
            return false;
        }
        i = i + 1;
    }
    assert(a@ =~= b@);
    true
}

/// Copies an optional byte string.
fn copy_opt(o: &Option<Vec<u8>>) -> (r: Option<Vec<u8>>)
    ensures
        opt_bytes(r) == opt_bytes(*o),
{
    match o {
        Some(v) => {
            let c = v.clone();
            assert(c@ =~= v@);
            Some(c)
        },
        None => None,
    }
}

/// Reads the materials of an MTL text; each name occurs once, and the list read as a map
/// is the materials `mtl_file` gives.
pub fn parse_mtl(text: &[u8]) -> (r: Vec<MtlMaterial>)
    ensures
        distinct_names(r@),
        materials_map(r@) == mtl_file(text@),
{
    let mut out: Vec<MtlMaterial> = Vec::new();
    let mut current: Option<usize> = None;
    let mut pos: usize = 0;
    let ghost start = MtlState { materials: Map::empty(), current: None };
    let ghost total = mtl_lines(text@, 0, start);
    assert(materials_map(out@) =~= Map::<Seq<u8>, MtlModel>::empty());
    loop
        invariant
            pos <= text.len(),
            distinct_names(out@),
            current matches Some(k) ==> k < out.len(),
            total.materials == mtl_file(text@),
            total == mtl_lines(
                text@,
                pos as int,
                MtlState {
                    materials: materials_map(out@),
                    current: match current {
                        Some(k) => Some(out@[k as int].name@),
                        None => None,
                    },
                },
            ),
        decreases text.len() - pos,
    {
        let e = find_byte_from(text, pos, 0x0a);
        proof {
            lemma_find_byte(text@, pos as int, 0x0a);
            lemma_materials_map(out@);
        }
        let line = vstd::slice::slice_subrange(text, pos, e);
        let ghost st = MtlState {
            materials: materials_map(out@),
            current: match current {
                Some(k) => Some(out@[k as int].name@),
                None => None,
            },
        };
        let ghost next = mtl_line(line@, st);
        let (a, z) = trim_span(line, 0);
        let tl = vstd::slice::slice_subrange(line, a, z);
        if tl.len() > 0 && tl[0] != 0x23 {
            let sp = find_byte_from(tl, 0, 0x20);
            let key = vstd::slice::slice_subrange(tl, 0, sp);
            let (va, vz) = if sp < tl.len() {
                trim_span(tl, sp + 1)
            } else {
                (tl.len(), tl.len())
            };
            let value = vstd::slice::slice_to_vec(vstd::slice::slice_subrange(tl, va, vz));
            assert(value@ == (if sp < tl.len() {
                trimmed_from(tl@, sp + 1)
            } else {
                Seq::<u8>::empty()
            })) by {
                if sp >= tl.len() {
                    assert(tl@.subrange(va as int, vz as int) =~= Seq::<u8>::empty());
                }
            }
            if key_is_exec(key, &[0x6e, 0x65, 0x77, 0x6d, 0x74, 0x6c]) {
                assert([0x6eu8, 0x65, 0x77, 0x6d, 0x74, 0x6c]@ =~= key_newmtl());
                let mut found: Option<usize> = None;
                let mut i: usize = 0;
                while i < out.len()
                    invariant
                        i <= out.len(),
                        found matches Some(k) ==> k < out.len() && out@[k as int].name@ == value@,
                        found is None ==> forall|j: int| 0 <= j < i ==> out@[j].name@ != value@,
                    decreases out.len() - i,
                {
                    if found.is_none() && bytes_eq(out[i].name.as_slice(), value.as_slice()) {
                        found = Some(i);
                    }
                    i = i + 1;
                }
                let fresh = MtlMaterial {
                    name: value,
                    kd: None,
                    ks: None,
                    ns: None,
                    map_kd: None,
                };
                let ghost name = fresh.name@;
                match found {
                    Some(k) => {
                        proof {
                            lemma_materials_map_update(out@, k as int, fresh);
                        }
                        out.set(k, fresh);
                        current = Some(k);
                    },
                    None => {
                        let ghost before = out@;
                        out.push(fresh);
                        assert(out@.drop_last() =~= before);
                        current = Some(out.len() - 1);
                    },
                }
                assert(material_model(fresh) =~= fresh_material());
                assert(materials_map(out@) =~= next.materials);
            } else if let Some(k) = current {
                let m = &out[k];
                let is_kd = key_is_exec(key, &[0x6b, 0x64]);
                let is_ks = key_is_exec(key, &[0x6b, 0x73]);
                let is_ns = key_is_exec(key, &[0x6e, 0x73]);
                let is_map = key_is_exec(key, &[0x6d, 0x61, 0x70, 0x5f, 0x6b, 0x64]);
                assert([0x6bu8, 0x64]@ =~= key_kd());
                assert([0x6bu8, 0x73]@ =~= key_ks());
                assert([0x6eu8, 0x73]@ =~= key_ns());
                assert([0x6du8, 0x61, 0x70, 0x5f, 0x6b, 0x64]@ =~= key_map_kd());
                if is_kd || is_ks || is_ns || is_map {
                    let mut x = MtlMaterial {
                        name: m.name.clone(),
                        kd: copy_opt(&m.kd),
                        ks: copy_opt(&m.ks),
                        ns: copy_opt(&m.ns),
                        map_kd: copy_opt(&m.map_kd),
                    };
                    assert(x.name@ =~= m.name@);
                    if is_kd {
                        x.kd = Some(value);
                    } else if is_ks {
                        x.ks = Some(value);
                    } else if is_ns {
                        x.ns = Some(value);
                    } else {
                        x.map_kd = Some(value);
                    }
                    proof {
                        lemma_materials_map_update(out@, k as int, x);
                    }
                    let ghost named = out@[k as int].name@;
                    out.set(k, x);
                    assert(out@[k as int].name@ == named);
                    assert(materials_map(out@) =~= next.materials);
                }
            }
        }
        proof {
            lemma_materials_map(out@);
        }
        assert(materials_map(out@) == next.materials);
        if e >= text.len() {
            assert(total == next);
            return out;
        }
        pos = e + 1;
    }
}

} // verus!
