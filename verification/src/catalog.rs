//! The shape catalog: every rotation of a list of authored patterns, each
//! shape listed once, in the order in which the patterns and their turns come.

use vstd::prelude::*;
use crate::pattern::{pattern_fault, pattern_model, PatternError};
use crate::shape::{distinct, models, push_distinct, with_distinct, Shape, ShapeModel};

verus! {

/// One authored pattern: the declared width and height, and the cells in
/// row-major order, `#` for an occupied cell and `.` for an empty one.
#[derive(Clone, Copy, Debug)]
pub struct PatternDef<'a> {
    pub width: usize,
    pub height: usize,
    pub cells: &'a str,
}

/// Which pattern of a list was rejected, and why.
#[derive(Clone, Copy, Debug, PartialEq, Eq, Structural)]
pub struct CatalogError {
    /// The position of the rejected pattern in the list.
    pub index: usize,
    pub reason: PatternError,
}

impl<'a> PatternDef<'a> {
    /// The fault of the pattern, if it has one.
    pub open spec fn fault(self) -> Option<PatternError> {
        pattern_fault(self.width as int, self.height as int, self.cells@)
    }

    /// The shape that the pattern denotes.
    pub open spec fn model(self) -> ShapeModel {
        pattern_model(self.width as int, self.height as int, self.cells@)
    }
}

/// `list`, followed by those entries of `more` that neither `list` nor an
/// earlier entry of `more` equals.
pub open spec fn with_all_distinct(list: Seq<ShapeModel>, more: Seq<ShapeModel>) -> Seq<
    ShapeModel,
>
    decreases more.len(),
{
    if more.len() == 0 {
        list
    } else {
        with_distinct(with_all_distinct(list, more.drop_last()), more.last())
    }
}

/// The catalog of a list of patterns without faults: the rotation classes of
/// the patterns one after the other, a shape that was listed before left out.
pub open spec fn catalog_models(defs: Seq<PatternDef>) -> Seq<ShapeModel>
    decreases defs.len(),
{
    if defs.len() == 0 {
        Seq::empty()
    } else {
        with_all_distinct(catalog_models(defs.drop_last()), defs.last().model().equivalents())
    }
}

/// `index` is the position of the first pattern of `defs` that has a fault.
pub open spec fn is_first_fault(defs: Seq<PatternDef>, index: int) -> bool {
    &&& 0 <= index < defs.len()
    &&& defs[index].fault() is Some
    &&& forall|before: int| 0 <= before < index ==> (#[trigger] defs[before]).fault() is None
}

/// No pattern of `defs` has a fault.
pub open spec fn all_sound(defs: Seq<PatternDef>) -> bool {
    forall|index: int| 0 <= index < defs.len() ==> (#[trigger] defs[index]).fault() is None
}

/// Appends to `shapes` each shape of `more` that is not yet there.
fn extend_distinct(shapes: &mut Vec<Shape>, more: &Vec<Shape>)
    ensures
        models(final(shapes)@) == with_all_distinct(models(old(shapes)@), models(more@)),
        distinct(models(old(shapes)@)) ==> distinct(models(final(shapes)@)),
{
    for i in 0..more.len()
        invariant
            models(shapes@) == with_all_distinct(models(old(shapes)@), models(more@).take(i as int)),
            distinct(models(old(shapes)@)) ==> distinct(models(shapes@)),
    {
        proof {
            let head = models(more@).take(i + 1);
            assert(head.drop_last() =~= models(more@).take(i as int));
            assert(head.last() == more@[i as int]@);
        }
        push_distinct(shapes, more[i]);
    }
    assert(models(more@).take(more.len() as int) =~= models(more@));
}

/// Builds the catalog of `defs`: each pattern is read, turned through its
/// rotation class, and every shape that the catalog does not hold yet is appended.
///
/// Fails on the first pattern that has a fault, with its position and the fault.
pub fn build_catalog(defs: &[PatternDef]) -> (built: Result<Vec<Shape>, CatalogError>)
    ensures
        match built {
            Ok(shapes) => all_sound(defs@) && models(shapes@) == catalog_models(defs@) && distinct(
                models(shapes@),
            ),
            Err(error) => is_first_fault(defs@, error.index as int) && defs@[error.index as int].fault()
                == Some(error.reason),
        },
{
    let mut shapes: Vec<Shape> = Vec::new();
    assert(models(shapes@) =~= Seq::empty());
    for index in 0..defs.len()
        invariant
            all_sound(defs@.take(index as int)),
            models(shapes@) == catalog_models(defs@.take(index as int)),
            distinct(models(shapes@)),
    {
        let def = &defs[index];
        let ghost head = defs@.take(index + 1);
        proof {
            assert(head.drop_last() =~= defs@.take(index as int));
            assert(head.last() == defs@[index as int]);
            assert forall|before: int| 0 <= before < index implies (#[trigger] defs@[before]).fault() is None by {
                assert(defs@.take(index as int)[before] == defs@[before]);
            }
        }
        match Shape::from_pattern(def.width, def.height, def.cells) {
            Ok(base) => {
                let class = base.equivalents();
                extend_distinct(&mut shapes, &class);
            },
            Err(reason) => {
                return Err(CatalogError { index, reason });
            },
        }
    }
    assert(defs@.take(defs.len() as int) =~= defs@);
    Ok(shapes)
}

/// A catalog lists no shape twice.
pub proof fn lemma_catalog_distinct(defs: Seq<PatternDef>)
    ensures
        distinct(catalog_models(defs)),
    decreases defs.len(),
{
    if defs.len() > 0 {
        lemma_catalog_distinct(defs.drop_last());
        lemma_with_all_distinct(catalog_models(defs.drop_last()), defs.last().model().equivalents());
    }
}

/// Appending what is not yet there keeps a list free of repetitions, keeps
/// what it held in place, and leaves out nothing of what was to be appended.
pub proof fn lemma_with_all_distinct(list: Seq<ShapeModel>, more: Seq<ShapeModel>)
    requires
        distinct(list),
    ensures
        distinct(with_all_distinct(list, more)),
        list.len() <= with_all_distinct(list, more).len() <= list.len() + more.len(),
        with_all_distinct(list, more).take(list.len() as int) == list,
        forall|i: int| 0 <= i < more.len() ==> with_all_distinct(list, more).contains(#[trigger] more[i]),
    decreases more.len(),
{
    if more.len() > 0 {
        let shorter = with_all_distinct(list, more.drop_last());
        let all = with_all_distinct(list, more);
        lemma_with_all_distinct(list, more.drop_last());
        assert(all.take(list.len() as int) =~= shorter.take(list.len() as int));
        assert forall|i: int| 0 <= i < more.len() implies all.contains(#[trigger] more[i]) by {
            if i < more.len() - 1 {
                assert(more.drop_last()[i] == more[i]);
                let at = choose|at: int| 0 <= at < shorter.len() && shorter[at] == more[i];
                assert(all[at] == more[i]);
            } else if shorter.contains(more.last()) {
            } else {
                assert(all[shorter.len() as int] == more[i]);
            }
        }
    } else {
        assert(list.take(list.len() as int) =~= list);
    }
}

} // verus!
