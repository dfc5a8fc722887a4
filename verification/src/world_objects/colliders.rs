//! Meshes read from OBJ files: which models of a file make an asset, and how
//! their index lists are joined into one vertex numbering.

use vstd::prelude::*;

verus! {

/// The OBJ file and model group that an asset name stands for: the chassis
/// of the racer is one group of the racer's file; any other asset is a whole
/// file of its own name.
pub fn obj_source<'a>(model_name: &'a str) -> (r: (&'a str, Option<&'a str>))
    ensures
        model_name@ == "vehicle-racer-chassis"@ ==> r.0@ == "vehicle-racer"@ && (r.1 matches Some(g)
            && g@ == "vehicle-racer"@),
        model_name@ != "vehicle-racer-chassis"@ ==> r.0@ == model_name@ && r.1 is None,
{
    if model_name.to_owned() == "vehicle-racer-chassis".to_owned() {
        ("vehicle-racer", Some("vehicle-racer"))
    } else {
        (model_name, None)
    }
}

/// What the merging reads of one model of an OBJ file: its name, the length
/// of its flat position list (three numbers per vertex) and its indices.
pub struct ObjModel {
    pub name: String,
    pub position_count: usize,
    pub indices: Vec<u32>,
}

pub struct ObjModelView {
    pub name: Seq<char>,
    pub position_count: nat,
    pub indices: Seq<u32>,
}

impl View for ObjModel {
    type V = ObjModelView;

    open spec fn view(&self) -> ObjModelView {
        ObjModelView { name: self.name@, position_count: self.position_count as nat, indices: self.indices@ }
    }
}

pub open spec fn models_view(models: Seq<ObjModel>) -> Seq<ObjModelView> {
    models.map_values(|m: ObjModel| m@)
}

/// The vertices of a model, as the 32-bit count that the merging uses.
pub open spec fn vertex_count(m: ObjModelView) -> u32 {
    (m.position_count / 3) as u32
}

/// A model takes part: every model when no group is named, else the models
/// of that name.
pub open spec fn is_selected(m: ObjModelView, group: Option<Seq<char>>) -> bool {
    match group {
        None => true,
        Some(g) => m.name == g,
    }
}

pub open spec fn shifted(indices: Seq<u32>, offset: int) -> Seq<u32> {
    indices.map_values(|x: u32| (x + offset) as u32)
}

pub open spec fn shift_overflows(indices: Seq<u32>, offset: int) -> bool {
    exists|k: int| 0 <= k < indices.len() && indices[k] + offset > u32::MAX
}

pub open spec fn prepend<T>(head: Seq<T>, tail: Option<Seq<T>>) -> Option<Seq<T>> {
    match tail {
        None => None,
        Some(t) => Some(head + t),
    }
}

/// The indices of the selected models, each shifted by the vertices of the
/// selected models before it; `None` when an index or the running vertex
/// count passes 32 bits.
pub open spec fn merged_indices(models: Seq<ObjModelView>, group: Option<Seq<char>>, offset: int) -> Option<
    Seq<u32>,
>
    decreases models.len(),
{
    if models.len() == 0 {
        Some(Seq::empty())
    } else {
        let m = models[0];
        let rest = models.drop_first();
        if !is_selected(m, group) {
            merged_indices(rest, group, offset)
        } else if shift_overflows(m.indices, offset) || offset + vertex_count(m) > u32::MAX {
            None
        } else {
            prepend(shifted(m.indices, offset), merged_indices(rest, group, offset + vertex_count(m)))
        }
    }
}

/// The complete triangles of an index list (a last incomplete one is
/// dropped), shifted by `offset`.
pub open spec fn shifted_triangles(indices: Seq<u32>, offset: int) -> Seq<(u32, u32, u32)> {
    Seq::new(
        indices.len() / 3,
        |k: int|
            (
                (indices[3 * k] + offset) as u32,
                (indices[3 * k + 1] + offset) as u32,
                (indices[3 * k + 2] + offset) as u32,
            ),
    )
}

pub open spec fn triangle_shift_overflows(indices: Seq<u32>, offset: int) -> bool {
    exists|k: int| 0 <= k < (indices.len() / 3) * 3 && indices[k] + offset > u32::MAX
}

/// The triangles of the selected models, in one vertex numbering.
pub open spec fn merged_triangles(
    models: Seq<ObjModelView>,
    group: Option<Seq<char>>,
    offset: int,
) -> Option<Seq<(u32, u32, u32)>>
    decreases models.len(),
{
    if models.len() == 0 {
        Some(Seq::empty())
    } else {
        let m = models[0];
        let rest = models.drop_first();
        if !is_selected(m, group) {
            merged_triangles(rest, group, offset)
        } else if triangle_shift_overflows(m.indices, offset) || offset + vertex_count(m) > u32::MAX {
            None
        } else {
            prepend(
                shifted_triangles(m.indices, offset),
                merged_triangles(rest, group, offset + vertex_count(m)),
            )
        }
    }
}

fn selects(m: &ObjModel, group: &Option<String>) -> (r: bool)
    ensures
        r == is_selected(m@, match group {
            Some(g) => Some(g@),
            None => None,
        }),
{
    match group {
        None => true,
        Some(g) => m.name == *g,
    }
}

pub open spec fn group_view(group: Option<&str>) -> Option<Seq<char>> {
    match group {
        Some(g) => Some(g@),
        None => None,
    }
}

fn owned_group(group: Option<&str>) -> (r: Option<String>)
    ensures
        match r {
            Some(g) => group_view(group) == Some(g@),
            None => group is None,
        },
{
    match group {
        Some(g) => Some(g.to_owned()),
        None => None,
    }
}

/// Joins the index lists of the models of `group` (all models without one)
/// into one mesh.
pub fn merge_mesh_indices(models: &Vec<ObjModel>, group: Option<&str>) -> (r: Option<Vec<u32>>)
    ensures
        match (r, merged_indices(models_view(models@), group_view(group), 0)) {
            (Some(v), Some(s)) => v@ == s,
            (None, None) => true,
            _ => false,
        },
{
    let g = owned_group(group);
    let ghost gv = group_view(group);
    let ghost all = models_view(models@);
    let mut out: Vec<u32> = Vec::new();
    let mut offset: u32 = 0;
    let mut i: usize = 0;
    assert(all.subrange(0, all.len() as int) =~= all);
    while i < models.len()
        invariant
            i <= models.len(),
            all == models_view(models@),
            gv == group_view(group),
            match g {
                Some(gs) => gv == Some(gs@),
                None => gv is None,
            },
            merged_indices(all, gv, 0) == prepend(
                out@,
                merged_indices(all.subrange(i as int, all.len() as int), gv, offset as int),
            ),
        decreases models.len() - i,
    {
        let ghost rest = all.subrange(i as int, all.len() as int);
        assert(rest[0] == models@[i as int]@);
        assert(rest.drop_first() =~= all.subrange(i + 1, all.len() as int));
        let m = &models[i];
        if selects(m, &g) {
            assert(is_selected(m@, gv));
            let ghost before = out@;
            let mut k: usize = 0;
            while k < m.indices.len()
                invariant
                    k <= m.indices.len(),
                    rest.len() > 0,
                    rest[0] == m@,
                    is_selected(m@, gv),
                    merged_indices(all, gv, 0) == prepend(before, merged_indices(rest, gv, offset as int)),
                    rest.drop_first() =~= all.subrange(i + 1, all.len() as int),
                    i < models.len(),
                    all == models_view(models@),
                    gv == group_view(group),
                    match g {
                        Some(gs) => gv == Some(gs@),
                        None => gv is None,
                    },
                    out@ =~= before + shifted(m.indices@, offset as int).subrange(0, k as int),
                    forall|q: int| 0 <= q < k ==> m.indices@[q] + offset <= u32::MAX,
                decreases m.indices.len() - k,
            {
                let x = m.indices[k];
                if x > u32::MAX - offset {
                    proof {
                        assert(shift_overflows(m.indices@, offset as int));
                        assert(is_selected(rest[0], gv));
                        assert(merged_indices(rest, gv, offset as int) is None);
                    }
                    return None;
                }
                out.push(x + offset);
                k += 1;
            }
            let n = #[verifier::truncate] ((m.position_count / 3) as u32);
            if n > u32::MAX - offset {
                proof {
                    assert(is_selected(rest[0], gv));
                    assert(n == vertex_count(rest[0]));
                    assert(merged_indices(rest, gv, offset as int) is None);
                }
                return None;
            }
            proof {
                assert(shifted(m.indices@, offset as int).subrange(0, k as int) =~= shifted(
                    m.indices@,
                    offset as int,
                ));
                assert(!shift_overflows(m.indices@, offset as int));
                assert(n == vertex_count(m@));
                let tail = merged_indices(all.subrange(i + 1, all.len() as int), gv, offset + n);
                assert(prepend(before, prepend(shifted(m.indices@, offset as int), tail)) == prepend(
                    out@,
                    tail,
                )) by {
                    if tail is Some {
                        assert(before + (shifted(m.indices@, offset as int) + tail->0) =~= out@
                            + tail->0);
                    }
                }
            }
            offset = offset + n;
        }
        i += 1;
    }
    proof {
        assert(all.subrange(all.len() as int, all.len() as int) =~= Seq::<ObjModelView>::empty());
        assert(out@ + Seq::<u32>::empty() =~= out@);
    }
    Some(out)
}


/// Joins the complete triangles of the models of `group` (all models
/// without one) into one list over one vertex numbering.
pub fn merge_triangles(models: &Vec<ObjModel>, group: Option<&str>) -> (r: Option<
    Vec<(u32, u32, u32)>,
>)
    ensures
        match (r, merged_triangles(models_view(models@), group_view(group), 0)) {
            (Some(v), Some(s)) => v@ == s,
            (None, None) => true,
            _ => false,
        },
{
    let g = owned_group(group);
    let ghost gv = group_view(group);
    let ghost all = models_view(models@);
    let mut out: Vec<(u32, u32, u32)> = Vec::new();
    let mut offset: u32 = 0;
    let mut i: usize = 0;
    assert(all.subrange(0, all.len() as int) =~= all);
    while i < models.len()
        invariant
            i <= models.len(),
            all == models_view(models@),
            gv == group_view(group),
            match g {
                Some(gs) => gv == Some(gs@),
                None => gv is None,
            },
            merged_triangles(all, gv, 0) == prepend(
                out@,
                merged_triangles(all.subrange(i as int, all.len() as int), gv, offset as int),
            ),
        decreases models.len() - i,
    {
        let ghost rest = all.subrange(i as int, all.len() as int);
        assert(rest[0] == models@[i as int]@);
        assert(rest.drop_first() =~= all.subrange(i + 1, all.len() as int));
        let m = &models[i];
        if selects(m, &g) {
            assert(is_selected(m@, gv));
            let ghost before = out@;
            let triangles = m.indices.len() / 3;
            let mut k: usize = 0;
            while k < triangles
                invariant
                    triangles == m.indices.len() / 3,
                    k <= triangles,
                    rest.len() > 0,
                    rest[0] == m@,
                    is_selected(m@, gv),
                    merged_triangles(all, gv, 0) == prepend(
                        before,
                        merged_triangles(rest, gv, offset as int),
                    ),
                    rest.drop_first() =~= all.subrange(i + 1, all.len() as int),
                    i < models.len(),
                    all == models_view(models@),
                    gv == group_view(group),
                    match g {
                        Some(gs) => gv == Some(gs@),
                        None => gv is None,
                    },
                    out@ =~= before + shifted_triangles(m.indices@, offset as int).subrange(0, k as int),
                    forall|q: int| 0 <= q < 3 * k ==> m.indices@[q] + offset <= u32::MAX,
                decreases triangles - k,
            {
                let x = m.indices[3 * k];
                let y = m.indices[3 * k + 1];
                let z = m.indices[3 * k + 2];
                if x > u32::MAX - offset || y > u32::MAX - offset || z > u32::MAX - offset {
                    proof {
                        if x > u32::MAX - offset {
                            assert(m.indices@[3 * k] + offset > u32::MAX);
                        } else if y > u32::MAX - offset {
                            assert(m.indices@[3 * k + 1] + offset > u32::MAX);
                        } else {
                            assert(m.indices@[3 * k + 2] + offset > u32::MAX);
                        }
                        assert(triangle_shift_overflows(m.indices@, offset as int));
                        assert(merged_triangles(rest, gv, offset as int) is None);
                    }
                    return None;
                }
                out.push((x + offset, y + offset, z + offset));
                k += 1;
            }
            let n = #[verifier::truncate] ((m.position_count / 3) as u32);
            proof {
                assert(!triangle_shift_overflows(m.indices@, offset as int)) by {
                    if triangle_shift_overflows(m.indices@, offset as int) {
                        let q = choose|q: int|
                            0 <= q < (m.indices@.len() / 3) * 3 && m.indices@[q] + offset > u32::MAX;
                        assert(q < 3 * k);
                    }
                }
            }
            if n > u32::MAX - offset {
                proof {
                    assert(n == vertex_count(rest[0]));
                    assert(merged_triangles(rest, gv, offset as int) is None);
                }
                return None;
            }
            proof {
                let sh = shifted_triangles(m.indices@, offset as int);
                assert(sh.subrange(0, k as int) =~= sh);
                assert(n == vertex_count(m@));
                let tail = merged_triangles(all.subrange(i + 1, all.len() as int), gv, offset + n);
                assert(prepend(before, prepend(sh, tail)) == prepend(out@, tail)) by {
                    if tail is Some {
                        assert(before + (sh + tail->0) =~= out@ + tail->0);
                    }
                }
            }
            offset = offset + n;
        }
        i += 1;
    }
    proof {
        assert(all.subrange(all.len() as int, all.len() as int) =~= Seq::<ObjModelView>::empty());
        assert(out@ + Seq::<(u32, u32, u32)>::empty() =~= out@);
    }
    Some(out)
}

} // verus!
