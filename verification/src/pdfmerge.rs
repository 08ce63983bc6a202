//! Planning the merge of the students' PDF files into one printable file: which
//! objects are kept, which become the catalog and the page tree.

use vstd::prelude::*;

verus! {

/// A PDF object id: object number and generation.
pub type ObjectId = (u32, u16);

/// What an object is, by its `/Type`.
#[derive(Clone, Copy, Debug)]
pub enum ObjectKind {
    /// The document catalog.
    Catalog,
    /// A page tree node; `is_dictionary` tells whether it is a dictionary.
    Pages { is_dictionary: bool },
    /// A page, an outline or the outline root: these are not copied.
    Skipped,
    /// Any other object: copied as it is.
    Other,
}

/// An object of the documents to merge, in the order of their ids.
#[derive(Clone, Copy, Debug)]
pub struct ObjectEntry {
    pub id: ObjectId,
    pub kind: ObjectKind,
}

/// Why a merge cannot be made.
#[derive(Clone, Copy, Debug, PartialEq, Eq)]
pub enum MergeError {
    /// No object of type `Catalog`.
    CatalogNotFound,
    /// No dictionary of type `Pages`.
    PagesNotFound,
}

/// How the merged document is made from the objects.
pub struct MergePlan {
    /// The id of the first catalog, and the position of the last one, whose contents are used.
    pub catalog: (ObjectId, usize),
    /// The id of the first page tree dictionary, and the positions of all page
    /// tree dictionaries, in order: each one's entries are merged over the next.
    pub pages: (ObjectId, Vec<usize>),
    /// The positions of the objects copied as they are, in order.
    pub copied: Vec<usize>,
}

/// The kind that a type name gives an object: `Catalog`, `Pages`, `Page`,
/// `Outlines` and `Outline` have their own kinds, every other name (or none) is `Other`.
pub open spec fn kind_of_name(name: Seq<u8>, is_dictionary: bool) -> ObjectKind {
    if name == "Catalog"@.map_values(|c: char| c as u8) {
        ObjectKind::Catalog
    } else if name == "Pages"@.map_values(|c: char| c as u8) {
        ObjectKind::Pages { is_dictionary }
    } else if name == "Page"@.map_values(|c: char| c as u8) || name == "Outlines"@.map_values(|c: char| c as u8)
        || name == "Outline"@.map_values(|c: char| c as u8) {
        ObjectKind::Skipped
    } else {
        ObjectKind::Other
    }
}

/// Whether two byte strings are equal.
fn bytes_eq(a: &[u8], b: &[u8]) -> (r: bool)
    ensures
        r == (a@ == b@),
{
    if a.len() != b.len() {
        return false;
    }
    let mut i: usize = 0;
    while i < a.len()
        invariant
            a@.len() == b@.len(),
            0 <= i <= a@.len(),
            forall|k: int| 0 <= k < i ==> a@[k] == b@[k],
        decreases a@.len() - i,
    {
        if a[i] != b[i] {
            return false;
        }
        i = i + 1;
    }
    assert(a@ =~= b@);
    true
}

/// The bytes of an ASCII text.
fn ascii_bytes(t: &str) -> (b: Vec<u8>)
    requires
        t.is_ascii(),
    ensures
        b@ == t@.map_values(|c: char| c as u8),
{
    let n = t.unicode_len();
    let mut b: Vec<u8> = Vec::new();
    let mut i: usize = 0;
    while i < n
        invariant
            t.is_ascii(),
            n == t@.len(),
            0 <= i <= n,
            b@ == t@.take(i as int).map_values(|c: char| c as u8),
        decreases n - i,
    {
        let c = t.get_ascii(i);
        b.push(c);
        assert(b@ =~= t@.take(i + 1).map_values(|c: char| c as u8));
        i = i + 1;
    }
    assert(t@.take(n as int) =~= t@);
    b
}

/// The kind of an object from its type name (empty when it has none) and
/// whether it is a dictionary.
pub fn classify_object(object_type: &[u8], is_dictionary: bool) -> (k: ObjectKind)
    ensures
        k == kind_of_name(object_type@, is_dictionary),
{
    proof {
        reveal_strlit("Catalog");
        reveal_strlit("Pages");
        reveal_strlit("Page");
        reveal_strlit("Outlines");
        reveal_strlit("Outline");
    }
    let catalog = ascii_bytes("Catalog");
    let pages = ascii_bytes("Pages");
    let page = ascii_bytes("Page");
    let outlines = ascii_bytes("Outlines");
    let outline = ascii_bytes("Outline");
    if bytes_eq(object_type, catalog.as_slice()) {
        ObjectKind::Catalog
    } else if bytes_eq(object_type, pages.as_slice()) {
        ObjectKind::Pages { is_dictionary }
    } else if bytes_eq(object_type, page.as_slice()) || bytes_eq(object_type, outlines.as_slice())
        || bytes_eq(object_type, outline.as_slice()) {
        ObjectKind::Skipped
    } else {
        ObjectKind::Other
    }
}

/// The object is a catalog.
pub open spec fn is_catalog(e: ObjectEntry) -> bool {
    e.kind matches ObjectKind::Catalog
}

/// The object is a page tree dictionary.
pub open spec fn is_pages_dict(e: ObjectEntry) -> bool {
    e.kind matches ObjectKind::Pages { is_dictionary } && is_dictionary
}

/// The object is copied as it is.
pub open spec fn is_copied(e: ObjectEntry) -> bool {
    e.kind matches ObjectKind::Other
}

/// The positions, in order, of the first `k` objects that satisfy `p`.
pub open spec fn positions(objs: Seq<ObjectEntry>, p: spec_fn(ObjectEntry) -> bool, k: int) -> Seq<usize>
    decreases k,
{
    if k <= 0 {
        Seq::empty()
    } else if p(objs[k - 1]) {
        positions(objs, p, k - 1).push((k - 1) as usize)
    } else {
        positions(objs, p, k - 1)
    }
}

/// The positions of all objects that satisfy `p`.
pub open spec fn all_positions(objs: Seq<ObjectEntry>, p: spec_fn(ObjectEntry) -> bool) -> Seq<usize> {
    positions(objs, p, objs.len() as int)
}

/// The merge of the objects: an error without a catalog or without a page tree
/// dictionary; otherwise the first catalog's id with the last catalog's
/// contents, the first page tree dictionary's id with all of them, and the
/// objects to copy.
pub open spec fn plan_ok(objs: Seq<ObjectEntry>, plan: MergePlan) -> bool {
    let cats = all_positions(objs, |e: ObjectEntry| is_catalog(e));
    let pgs = all_positions(objs, |e: ObjectEntry| is_pages_dict(e));
    &&& cats.len() > 0 && pgs.len() > 0
    &&& plan.catalog.0 == objs[cats[0] as int].id
    &&& plan.catalog.1 == cats.last()
    &&& plan.pages.0 == objs[pgs[0] as int].id
    &&& plan.pages.1@ == pgs
    &&& plan.copied@ == all_positions(objs, |e: ObjectEntry| is_copied(e))
}

/// Plans the merge of the objects of the documents, taken in the order of
/// their ids: the catalog keeps the id of the first catalog and the contents
/// of the last; the page tree keeps the id of the first page tree dictionary
/// and merges all of them; pages and outlines are left out and every other
/// object is copied.
pub fn plan_merge(objects: &Vec<ObjectEntry>) -> (r: Result<MergePlan, MergeError>)
    ensures
        match r {
            Ok(plan) => plan_ok(objects@, plan),
            Err(MergeError::CatalogNotFound) => all_positions(objects@, |e: ObjectEntry| is_catalog(e)).len() == 0,
            Err(MergeError::PagesNotFound) => all_positions(objects@, |e: ObjectEntry| is_catalog(e)).len() > 0
                && all_positions(objects@, |e: ObjectEntry| is_pages_dict(e)).len() == 0,
        },
{
    let ghost objs = objects@;
    let ghost cat_p = |e: ObjectEntry| is_catalog(e);
    let ghost pg_p = |e: ObjectEntry| is_pages_dict(e);
    let ghost cp_p = |e: ObjectEntry| is_copied(e);
    let mut catalog: Option<(ObjectId, usize)> = None;
    let mut pages_id: Option<ObjectId> = None;
    let mut pages: Vec<usize> = Vec::new();
    let mut copied: Vec<usize> = Vec::new();
    let mut i: usize = 0;
    while i < objects.len()
        invariant
            objs == objects@,
            cat_p == (|e: ObjectEntry| is_catalog(e)),
            pg_p == (|e: ObjectEntry| is_pages_dict(e)),
            cp_p == (|e: ObjectEntry| is_copied(e)),
            0 <= i <= objs.len(),
            match catalog {
                Some((id, last)) => positions(objs, cat_p, i as int).len() > 0
                    && id == objs[positions(objs, cat_p, i as int)[0] as int].id
                    && last == positions(objs, cat_p, i as int).last(),
                None => positions(objs, cat_p, i as int).len() == 0,
            },
            pages@ == positions(objs, pg_p, i as int),
            match pages_id {
                Some(id) => pages@.len() > 0 && id == objs[pages@[0] as int].id,
                None => pages@.len() == 0,
            },
            copied@ == positions(objs, cp_p, i as int),
        decreases objs.len() - i,
    {
        let entry = objects[i];
        match entry.kind {
            ObjectKind::Catalog => {
                catalog = match catalog {
                    Some((id, _)) => Some((id, i)),
                    None => Some((entry.id, i)),
                };
            },
            ObjectKind::Pages { is_dictionary } => {
                if is_dictionary {
                    if pages_id.is_none() {
                        pages_id = Some(entry.id);
                    }
                    pages.push(i);
                }
            },
            ObjectKind::Skipped => {},
            ObjectKind::Other => {
                copied.push(i);
            },
        }
        i = i + 1;
    }
    match catalog {
        None => Err(MergeError::CatalogNotFound),
        Some(cat) => match pages_id {
            None => Err(MergeError::PagesNotFound),
            Some(pid) => Ok(MergePlan { catalog: cat, pages: (pid, pages), copied }),
        },
    }
}

/// A page of the documents to merge, in the order of their ids: its id and
/// whether it is a dictionary.
#[derive(Clone, Copy, Debug)]
pub struct PageEntry {
    pub id: ObjectId,
    pub is_dictionary: bool,
}

/// The page tree of the merged document.
pub struct PageTree {
    /// The page ids, in order: the `Kids` of the page tree.
    pub kids: Vec<ObjectId>,
    /// The number of pages, as the `Count` of the page tree (in `u32`, as PDF writes it).
    pub count: u32,
    /// The positions of the pages that are dictionaries, in order: each gets the
    /// page tree as its `Parent`.
    pub reparented: Vec<usize>,
}

/// The positions, in order, of the pages among the first `k` that are dictionaries.
pub open spec fn dict_pages(pages: Seq<PageEntry>, k: int) -> Seq<usize>
    decreases k,
{
    if k <= 0 {
        Seq::empty()
    } else if pages[k - 1].is_dictionary {
        dict_pages(pages, k - 1).push((k - 1) as usize)
    } else {
        dict_pages(pages, k - 1)
    }
}

/// The page tree of the merged document: all pages as kids in the order of
/// their ids, their number as the count, and every page dictionary reparented.
pub fn plan_page_tree(pages: &Vec<PageEntry>) -> (t: PageTree)
    ensures
        t.kids@ == pages@.map_values(|p: PageEntry| p.id),
        t.count == pages@.len() as u32,
        t.reparented@ == dict_pages(pages@, pages@.len() as int),
{
    let mut kids: Vec<ObjectId> = Vec::new();
    let mut reparented: Vec<usize> = Vec::new();
    let mut i: usize = 0;
    while i < pages.len()
        invariant
            0 <= i <= pages@.len(),
            kids@ == pages@.take(i as int).map_values(|p: PageEntry| p.id),
            reparented@ == dict_pages(pages@, i as int),
        decreases pages@.len() - i,
    {
        let page = pages[i];
        kids.push(page.id);
        if page.is_dictionary {
            reparented.push(i);
        }
        assert(kids@ =~= pages@.take(i + 1).map_values(|p: PageEntry| p.id));
        i = i + 1;
    }
    assert(pages@.take(i as int) =~= pages@);
    PageTree { kids, count: pages.len() as u32, reparented }
}

} // verus!
