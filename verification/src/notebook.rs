//! Whether the pages of the main notebook and what is known of them stand in the same order.

use vstd::prelude::*;

verus! {

/// What is wrong with the pages, and at which place.
#[derive(Clone, Copy, PartialEq, Eq, Structural, Debug)]
pub enum NotebookMismatch {
    /// A tree view belongs to no page.
    UnknownTreeView(usize),
    /// The information about a page stands at another page's place.
    InfoOutOfOrder(usize),
    /// A tree view stands at another page's place.
    TreeViewOutOfOrder(usize),
}

/// Whether all pages at the first places are where they belong. A page is given by its number.
pub open spec fn in_order(pages: Seq<u32>, places: int) -> bool {
    forall|i: int| 0 <= i < places ==> #[trigger] pages[i] == i
}

/// Whether all tree views at the first places belong to some page.
pub open spec fn all_known(tree_views: Seq<Option<u32>>, places: int) -> bool {
    forall|i: int| 0 <= i < places ==> (#[trigger] tree_views[i]) is Some
}

/// Whether all tree views at the first places are where they belong.
pub open spec fn views_in_order(tree_views: Seq<Option<u32>>, places: int) -> bool {
    forall|i: int| 0 <= i < places ==> (#[trigger] tree_views[i]) is Some && tree_views[i]->0 == i
}

/// Checks the pages that the tree views belong to, and those that information is kept about. Every
/// tree view has to belong to a page, and every page has to stand at the place of its number.
/// Returns the first thing that is wrong.
pub fn validate_notebook_data(
    notebooks_info: &Vec<u32>,
    main_tree_views: &Vec<Option<u32>>,
) -> (r: Result<(), NotebookMismatch>)
    ensures
        r is Ok <==> (forall|i: int|
            0 <= i < notebooks_info@.len() ==> #[trigger] notebooks_info@[i] == i) && (forall|i: int|
            0 <= i < main_tree_views@.len() ==> #[trigger] main_tree_views@[i] == Some(i as u32)
                && i as u32 == i),
        match r {
            Ok(_) => in_order(notebooks_info@, notebooks_info@.len() as int) && views_in_order(
                main_tree_views@,
                main_tree_views@.len() as int,
            ),
            Err(NotebookMismatch::UnknownTreeView(i)) => i < main_tree_views@.len()
                && main_tree_views@[i as int] is None && all_known(main_tree_views@, i as int),
            Err(NotebookMismatch::InfoOutOfOrder(i)) => i < notebooks_info@.len()
                && notebooks_info@[i as int] != i && in_order(notebooks_info@, i as int)
                && all_known(main_tree_views@, main_tree_views@.len() as int),
            Err(NotebookMismatch::TreeViewOutOfOrder(i)) => {
                &&& i < main_tree_views@.len()
                &&& main_tree_views@[i as int] is Some && main_tree_views@[i as int]->0 != i
                &&& views_in_order(main_tree_views@, i as int)
                &&& in_order(notebooks_info@, notebooks_info@.len() as int)
                &&& all_known(main_tree_views@, main_tree_views@.len() as int)
            },
        },
{
    let mut i: usize = 0;
    while i < main_tree_views.len()
        invariant
            i <= main_tree_views@.len(),
            all_known(main_tree_views@, i as int),
        decreases main_tree_views@.len() - i,
    {
        if main_tree_views[i].is_none() {
            return Err(NotebookMismatch::UnknownTreeView(i));
        }
        i = i + 1;
    }
    let mut i: usize = 0;
    while i < notebooks_info.len()
        invariant
            i <= notebooks_info@.len(),
            in_order(notebooks_info@, i as int),
            all_known(main_tree_views@, main_tree_views@.len() as int),
        decreases notebooks_info@.len() - i,
    {
        if notebooks_info[i] as usize != i {
            return Err(NotebookMismatch::InfoOutOfOrder(i));
        }
        i = i + 1;
    }
    let mut i: usize = 0;
    while i < main_tree_views.len()
        invariant
            i <= main_tree_views@.len(),
            views_in_order(main_tree_views@, i as int),
            in_order(notebooks_info@, notebooks_info@.len() as int),
            all_known(main_tree_views@, main_tree_views@.len() as int),
        decreases main_tree_views@.len() - i,
    {
        match main_tree_views[i] {
            Some(page) => {
                if page as usize != i {
                    return Err(NotebookMismatch::TreeViewOutOfOrder(i));
                }
            },
            None => {
                assert(main_tree_views@[i as int] is Some);
            },
        }
        i = i + 1;
    }
    Ok(())
}

/// Pages are in order exactly if none of them stands at another page's place, and in order up to a
/// place exactly if they are so before it and there; and so with tree views.
pub proof fn law_order_is_checked_place_by_place(
    pages: Seq<u32>,
    tree_views: Seq<Option<u32>>,
    places: int,
)
    requires
        0 <= places,
    ensures
        in_order(pages, 0),
        all_known(tree_views, 0),
        views_in_order(tree_views, 0),
        in_order(pages, places + 1) <==> in_order(pages, places) && pages[places] == places,
        all_known(tree_views, places + 1) <==> all_known(tree_views, places)
            && tree_views[places] is Some,
        views_in_order(tree_views, places + 1) <==> views_in_order(tree_views, places)
            && tree_views[places] is Some && tree_views[places]->0 == places,
{
}

} // verus!
