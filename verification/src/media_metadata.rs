//! The tag hierarchy aggregator: it groups media files, by the tag metadata
//! extracted for each of them, into a deterministic category tree — genre,
//! then creator, then album, then track, or the same without the genre
//! level.  Sibling nodes at every level are kept in ascending label order,
//! so the same records always build the same forest.

use vstd::prelude::*;
use crate::text::{lex_le, base_name_of, base_name, strs_view, lemma_lex_le_total, str_le};

verus! {

/// The tag record extracted for one media file.  Every field is optional:
/// absence means the tag is missing, never an error.
#[derive(Debug, Clone, PartialEq, Default)]
pub struct MediaMetadata {
    pub creator: Option<String>,
    pub album: Option<String>,
    pub title: Option<String>,
    pub genre: Option<String>,
    pub track_num: Option<u32>,
    pub duration_ms: Option<u64>,
    pub image_uri: Option<String>,
    pub identifier: Option<String>,
    pub annotation: Option<String>,
}

/// One media file together with its extracted metadata: the input record of
/// the hierarchy builders.
#[derive(Debug, Clone, PartialEq)]
pub struct MediaFile {
    pub path: String,
    pub metadata: MediaMetadata,
}

/// One level of the aggregated hierarchy: a category node carries children,
/// a track node carries file paths.
#[derive(Debug, PartialEq)]
pub struct TagTreeNode {
    pub label: String,
    pub children: Vec<TagTreeNode>,
    pub file_paths: Vec<String>,
    pub is_expanded: bool,
}

/// The mathematical shape of a [`TagTreeNode`].
#[verifier::ext_equal]
pub struct TagNodeV {
    pub label: Seq<char>,
    pub children: Seq<TagNodeV>,
    pub file_paths: Seq<Seq<char>>,
    pub is_expanded: bool,
}

pub open spec fn tag_node_view(n: TagTreeNode) -> TagNodeV
    decreases n, 1nat,
    via tag_node_view_decreases
{
    TagNodeV {
        label: n.label@,
        children: tag_nodes_view(n.children@),
        file_paths: strs_view(n.file_paths@),
        is_expanded: n.is_expanded,
    }
}

/// The views of a sequence of nodes.
pub open spec fn tag_nodes_view(ns: Seq<TagTreeNode>) -> Seq<TagNodeV>
    decreases ns, 0nat,
{
    if ns.len() == 0 {
        Seq::empty()
    } else {
        tag_nodes_view(ns.drop_last()).push(tag_node_view(ns.last()))
    }
}

#[via_fn]
proof fn tag_node_view_decreases(n: TagTreeNode) {
    assert(decreases_to!(n => n.children));
    assert(decreases_to!(n.children => n.children@));
}

impl View for TagTreeNode {
    type V = TagNodeV;

    open spec fn view(&self) -> TagNodeV {
        tag_node_view(*self)
    }
}

/// Viewing a sequence of nodes views each node in place.
pub proof fn lemma_tag_nodes_view(ns: Seq<TagTreeNode>)
    ensures
        tag_nodes_view(ns).len() == ns.len(),
        forall|i: int| 0 <= i < ns.len() ==> tag_nodes_view(ns)[i] == tag_node_view(ns[i]),
    decreases ns.len(),
{
    if ns.len() > 0 {
        lemma_tag_nodes_view(ns.drop_last());
        assert(forall|i: int| 0 <= i < ns.len() - 1 ==> ns.drop_last()[i] == ns[i]);
    }
}

/// The placeholder label a record falls back to when a category tag is
/// missing.
pub open spec fn unknown_label() -> Seq<char> {
    "Unknown"@
}

/// The genre a record is filed under: its genre tag, or the placeholder.
pub open spec fn genre_label(m: MediaMetadata) -> Seq<char> {
    match m.genre {
        Some(g) => g@,
        None => unknown_label(),
    }
}

/// The creator a record is filed under: its creator tag, or the placeholder.
pub open spec fn creator_label(m: MediaMetadata) -> Seq<char> {
    match m.creator {
        Some(c) => c@,
        None => unknown_label(),
    }
}

/// The album a record is filed under: its album tag, or the placeholder.
pub open spec fn album_label(m: MediaMetadata) -> Seq<char> {
    match m.album {
        Some(a) => a@,
        None => unknown_label(),
    }
}

/// The track label of a record: its title tag, or the file's base name,
/// extension included.
pub open spec fn title_label(f: MediaFile) -> Seq<char> {
    match f.metadata.title {
        Some(t) => t@,
        None => base_name_of(f.path@),
    }
}

/// The category path of a record in the genre-first hierarchy.
pub open spec fn genre_level_labels(f: MediaFile) -> Seq<Seq<char>> {
    seq![genre_label(f.metadata), creator_label(f.metadata), album_label(f.metadata)]
}

/// The category path of a record in the creator-first hierarchy.
pub open spec fn creator_level_labels(f: MediaFile) -> Seq<Seq<char>> {
    seq![creator_label(f.metadata), album_label(f.metadata)]
}

/// A fresh track node: one label, one file path.
pub open spec fn leaf_node(title: Seq<char>, path: Seq<char>) -> TagNodeV {
    TagNodeV { label: title, children: Seq::empty(), file_paths: seq![path], is_expanded: false }
}

/// The single-branch subtree created when a record's categories are not in
/// the forest yet: one node per remaining label, a track node at the bottom.
pub open spec fn new_chain(labels: Seq<Seq<char>>, title: Seq<char>, path: Seq<char>) -> TagNodeV
    decreases labels.len(),
{
    if labels.len() == 0 {
        leaf_node(title, path)
    } else {
        TagNodeV {
            label: labels[0],
            children: seq![new_chain(labels.drop_first(), title, path)],
            file_paths: Seq::empty(),
            is_expanded: false,
        }
    }
}

/// `n` with its children replaced.
pub open spec fn with_children(n: TagNodeV, cs: Seq<TagNodeV>) -> TagNodeV {
    TagNodeV { label: n.label, children: cs, file_paths: n.file_paths, is_expanded: n.is_expanded }
}

/// Files one record into the forest.  While `labels` is non-empty, the
/// record descends into the category node carrying the next label, merging
/// with an existing node of equal label or splicing a fresh chain in at its
/// sorted position; with the labels exhausted, a fresh track node is placed
/// after every track of smaller or equal title, so equal titles keep their
/// arrival order and duplicates stay separate nodes.
pub open spec fn spec_insert(
    forest: Seq<TagNodeV>,
    labels: Seq<Seq<char>>,
    title: Seq<char>,
    path: Seq<char>,
) -> Seq<TagNodeV>
    decreases forest,
{
    if forest.len() == 0 {
        seq![new_chain(labels, title, path)]
    } else if labels.len() == 0 {
        if lex_le(forest[0].label, title) {
            seq![forest[0]] + spec_insert(forest.drop_first(), labels, title, path)
        } else {
            seq![leaf_node(title, path)] + forest
        }
    } else if forest[0].label == labels[0] {
        seq![
            with_children(
                forest[0],
                spec_insert(forest[0].children, labels.drop_first(), title, path),
            ),
        ] + forest.drop_first()
    } else if lex_le(forest[0].label, labels[0]) {
        seq![forest[0]] + spec_insert(forest.drop_first(), labels, title, path)
    } else {
        seq![new_chain(labels, title, path)] + forest
    }
}

proof fn lemma_spec_insert_skip(
    forest: Seq<TagNodeV>,
    labels: Seq<Seq<char>>,
    title: Seq<char>,
    path: Seq<char>,
    k: int,
)
    requires
        0 <= k <= forest.len(),
        labels.len() == 0 ==> forall|j: int| 0 <= j < k ==> lex_le(#[trigger] forest[j].label, title),
        labels.len() > 0 ==> forall|j: int|
            0 <= j < k ==> (#[trigger] forest[j].label) != labels[0] && lex_le(
                forest[j].label,
                labels[0],
            ),
    ensures
        spec_insert(forest, labels, title, path) == forest.take(k) + spec_insert(
            forest.skip(k),
            labels,
            title,
            path,
        ),
    decreases k,
{
    if k == 0 {
        assert(forest.skip(0) =~= forest);
        assert(forest.take(0) + spec_insert(forest, labels, title, path) =~= spec_insert(
            forest,
            labels,
            title,
            path,
        ));
    } else {
        let rest = forest.drop_first();
        assert forall|j: int| 0 <= j < k - 1 implies rest[j] == forest[j + 1] by {}
        lemma_spec_insert_skip(rest, labels, title, path, k - 1);
        assert(rest.skip(k - 1) =~= forest.skip(k));
        assert(seq![forest[0]] + (rest.take(k - 1) + spec_insert(forest.skip(k), labels, title,
        path)) =~= forest.take(k) + spec_insert(forest.skip(k), labels, title, path));
    }
}

/// The track node for one record, executable form.
fn make_leaf(title: &String, path: &String) -> (r: TagTreeNode)
    ensures
        r@ == leaf_node(title@, path@),
{
    let mut paths: Vec<String> = Vec::new();
    paths.push(path.clone());
    let r = TagTreeNode {
        label: title.clone(),
        children: Vec::new(),
        file_paths: paths,
        is_expanded: false,
    };
    proof {
        assert(strs_view(r.file_paths@) =~= seq![path@]);
        assert(tag_nodes_view(r.children@) =~= Seq::<TagNodeV>::empty());
        assert(r@ =~= leaf_node(title@, path@));
    }
    r
}

/// Builds the fresh chain for the labels from `li` on, executable form.
fn build_chain(labels: &Vec<String>, li: usize, title: &String, path: &String) -> (r: TagTreeNode)
    requires
        li <= labels@.len(),
    ensures
        r@ == new_chain(strs_view(labels@).skip(li as int), title@, path@),
    decreases labels@.len() - li,
{
    let ghost ls = strs_view(labels@).skip(li as int);
    if li == labels.len() {
        let r = make_leaf(title, path);
        proof {
            assert(ls.len() == 0);
        }
        r
    } else {
        let sub = build_chain(labels, li + 1, title, path);
        let mut children: Vec<TagTreeNode> = Vec::new();
        children.push(sub);
        let r = TagTreeNode {
            label: labels[li].clone(),
            children,
            file_paths: Vec::new(),
            is_expanded: false,
        };
        proof {
            assert(strs_view(labels@)[li as int] == labels@[li as int]@);
            assert(ls[0] == labels@[li as int]@);
            assert(ls.drop_first() =~= strs_view(labels@).skip(li as int + 1));
            assert(r.children@.drop_last() =~= Seq::<TagTreeNode>::empty());
            assert(r.children@.last() == sub);
            assert(tag_nodes_view(Seq::<TagTreeNode>::empty()) == Seq::<TagNodeV>::empty());
            assert(tag_nodes_view(r.children@) =~= seq![sub@]);
            assert(strs_view(r.file_paths@) =~= Seq::<Seq<char>>::empty());
            assert(r@ =~= new_chain(ls, title@, path@));
        }
        r
    }
}

/// Files one record into the forest, as [`spec_insert`] describes.
fn insert_track(
    forest: &mut Vec<TagTreeNode>,
    labels: &Vec<String>,
    li: usize,
    title: &String,
    path: &String,
)
    requires
        li <= labels@.len(),
    ensures
        tag_nodes_view(final(forest)@) == spec_insert(
            tag_nodes_view(old(forest)@),
            strs_view(labels@).skip(li as int),
            title@,
            path@,
        ),
    decreases *old(forest),
{
    let ghost orig: Vec<TagTreeNode> = *forest;
    let ghost fv = tag_nodes_view(forest@);
    let ghost ls = strs_view(labels@).skip(li as int);
    proof {
        lemma_tag_nodes_view(forest@);
    }
    let n = forest.len();
    let at_leaf = li == labels.len();
    let mut pos: usize = 0;
    let mut merge_here = false;
    while pos < n
        invariant_except_break
            0 <= pos <= n,
            *forest == orig,
            n == forest@.len(),
            fv == tag_nodes_view(forest@),
            fv.len() == n,
            ls == strs_view(labels@).skip(li as int),
            li <= labels@.len(),
            at_leaf == (li == labels@.len()),
            !merge_here,
            forall|i: int| 0 <= i < forest@.len() ==> #[trigger] fv[i] == tag_node_view(forest@[i]),
            at_leaf ==> forall|j: int| 0 <= j < pos ==> lex_le(#[trigger] fv[j].label, title@),
            !at_leaf ==> forall|j: int|
                0 <= j < pos ==> (#[trigger] fv[j].label) != ls[0] && lex_le(fv[j].label, ls[0]),
        ensures
            0 <= pos <= n,
            *forest == orig,
            n == forest@.len(),
            fv == tag_nodes_view(forest@),
            fv.len() == n,
            forall|i: int| 0 <= i < forest@.len() ==> #[trigger] fv[i] == tag_node_view(forest@[i]),
            at_leaf ==> forall|j: int| 0 <= j < pos ==> lex_le(#[trigger] fv[j].label, title@),
            !at_leaf ==> forall|j: int|
                0 <= j < pos ==> (#[trigger] fv[j].label) != ls[0] && lex_le(fv[j].label, ls[0]),
            merge_here ==> !at_leaf && pos < n && fv[pos as int].label == ls[0],
            !merge_here && at_leaf ==> pos == n || !lex_le(fv[pos as int].label, title@),
            !merge_here && !at_leaf ==> pos == n || (fv[pos as int].label != ls[0] && !lex_le(
                fv[pos as int].label,
                ls[0],
            )),
        decreases n - pos,
    {
        if at_leaf {
            if !str_le(forest[pos].label.as_str(), title.as_str()) {
                break;
            }
        } else {
            proof {
                assert(strs_view(labels@)[li as int] == labels@[li as int]@);
                assert(ls[0] == labels@[li as int]@);
            }
            if forest[pos].label == labels[li] {
                merge_here = true;
                break;
            }
            if !str_le(forest[pos].label.as_str(), labels[li].as_str()) {
                break;
            }
        }
        pos = pos + 1;
    }
    proof {
        lemma_spec_insert_skip(fv, ls, title@, path@, pos as int);
    }
    if merge_here {
        let mut node = forest.remove(pos);
        proof {
            assert(node == orig@[pos as int]);
            assert(decreases_to!(orig => orig@));
            assert(decreases_to!(orig@ => orig@[pos as int]));
            assert(decreases_to!(orig@[pos as int] => orig@[pos as int].children));
        }
        insert_track(&mut node.children, labels, li + 1, title, path);
        proof {
            assert(ls.drop_first() =~= strs_view(labels@).skip(li as int + 1));
        }
        forest.insert(pos, node);
        proof {
            lemma_tag_nodes_view(forest@);
            let merged = tag_node_view(forest@[pos as int]);
            assert(merged =~= with_children(
                fv[pos as int],
                spec_insert(fv[pos as int].children, ls.drop_first(), title@, path@),
            ));
            assert(fv.skip(pos as int)[0] == fv[pos as int]);
            assert(fv.skip(pos as int).drop_first() =~= fv.skip(pos as int + 1));
            assert forall|i: int|
                0 <= i < forest@.len() implies #[trigger] tag_nodes_view(forest@)[i]
                == tag_node_view(forest@[i]) by {
                lemma_tag_nodes_view(forest@);
            }
            assert(tag_nodes_view(forest@) =~= fv.take(pos as int) + spec_insert(
                fv.skip(pos as int),
                ls,
                title@,
                path@,
            ));
        }
    } else {
        let node = if at_leaf {
            make_leaf(title, path)
        } else {
            build_chain(labels, li, title, path)
        };
        proof {
            if at_leaf {
                assert(ls.len() == 0);
                assert(node@ == new_chain(ls, title@, path@));
            }
        }
        forest.insert(pos, node);
        proof {
            lemma_tag_nodes_view(forest@);
            if pos < n {
                if at_leaf {
                    assert(spec_insert(fv.skip(pos as int), ls, title@, path@) == seq![
                        leaf_node(title@, path@),
                    ] + fv.skip(pos as int));
                } else {
                    assert(spec_insert(fv.skip(pos as int), ls, title@, path@) == seq![
                        new_chain(ls, title@, path@),
                    ] + fv.skip(pos as int));
                }
            } else {
                assert(fv.skip(pos as int) =~= Seq::<TagNodeV>::empty());
            }
            assert(tag_nodes_view(forest@) =~= fv.take(pos as int) + spec_insert(
                fv.skip(pos as int),
                ls,
                title@,
                path@,
            ));
        }
    }
}

/// The genre-first hierarchy of a record sequence: each record filed under
/// genre, creator and album, records taken in order.
pub open spec fn spec_build_genre_tree(files: Seq<MediaFile>) -> Seq<TagNodeV>
    decreases files.len(),
{
    if files.len() == 0 {
        Seq::empty()
    } else {
        spec_insert(
            spec_build_genre_tree(files.drop_last()),
            genre_level_labels(files.last()),
            title_label(files.last()),
            files.last().path@,
        )
    }
}

/// The creator-first hierarchy of a record sequence.
pub open spec fn spec_build_creator_tree(files: Seq<MediaFile>) -> Seq<TagNodeV>
    decreases files.len(),
{
    if files.len() == 0 {
        Seq::empty()
    } else {
        spec_insert(
            spec_build_creator_tree(files.drop_last()),
            creator_level_labels(files.last()),
            title_label(files.last()),
            files.last().path@,
        )
    }
}

/// The given tag value, or the placeholder when it is missing.
fn or_unknown(o: &Option<String>) -> (r: String)
    ensures
        r@ == match o {
            Some(s) => s@,
            None => unknown_label(),
        },
{
    match o {
        Some(s) => s.clone(),
        None => String::from_str("Unknown"),
    }
}

/// The track label of a record: its title, or the file's base name.
fn title_of(f: &MediaFile) -> (r: String)
    ensures
        r@ == title_label(*f),
{
    match &f.metadata.title {
        Some(t) => t.clone(),
        None => base_name(f.path.as_str()),
    }
}

/// Groups the records into the genre → creator → album → track hierarchy.
///
/// The result is exactly [`spec_build_genre_tree`] of the records: the same
/// records always yield the same forest, with siblings in ascending label
/// order at every level.
pub fn build_genre_tag_tree(files: &Vec<MediaFile>) -> (r: Vec<TagTreeNode>)
    ensures
        tag_nodes_view(r@) == spec_build_genre_tree(files@),
{
    let mut forest: Vec<TagTreeNode> = Vec::new();
    proof {
        assert(tag_nodes_view(forest@) =~= spec_build_genre_tree(files@.take(0)));
    }
    let n = files.len();
    let mut i: usize = 0;
    while i < n
        invariant
            0 <= i <= n,
            n == files@.len(),
            tag_nodes_view(forest@) == spec_build_genre_tree(files@.take(i as int)),
        decreases n - i,
    {
        let f = &files[i];
        let mut labels: Vec<String> = Vec::new();
        labels.push(or_unknown(&f.metadata.genre));
        labels.push(or_unknown(&f.metadata.creator));
        labels.push(or_unknown(&f.metadata.album));
        let title = title_of(f);
        proof {
            assert(strs_view(labels@) =~= genre_level_labels(files@[i as int]));
            assert(strs_view(labels@).skip(0) =~= strs_view(labels@));
        }
        insert_track(&mut forest, &labels, 0, &title, &f.path);
        proof {
            assert(files@.take(i as int + 1).drop_last() =~= files@.take(i as int));
            assert(files@.take(i as int + 1).last() == files@[i as int]);
        }
        i = i + 1;
    }
    proof {
        assert(files@.take(n as int) =~= files@);
    }
    forest
}

/// Groups the records into the creator → album → track hierarchy.
///
/// The result is exactly [`spec_build_creator_tree`] of the records: the
/// same records always yield the same forest, with siblings in ascending
/// label order at every level.
pub fn build_creator_tag_tree(files: &Vec<MediaFile>) -> (r: Vec<TagTreeNode>)
    ensures
        tag_nodes_view(r@) == spec_build_creator_tree(files@),
{
    let mut forest: Vec<TagTreeNode> = Vec::new();
    proof {
        assert(tag_nodes_view(forest@) =~= spec_build_creator_tree(files@.take(0)));
    }
    let n = files.len();
    let mut i: usize = 0;
    while i < n
        invariant
            0 <= i <= n,
            n == files@.len(),
            tag_nodes_view(forest@) == spec_build_creator_tree(files@.take(i as int)),
        decreases n - i,
    {
        let f = &files[i];
        let mut labels: Vec<String> = Vec::new();
        labels.push(or_unknown(&f.metadata.creator));
        labels.push(or_unknown(&f.metadata.album));
        let title = title_of(f);
        proof {
            assert(strs_view(labels@) =~= creator_level_labels(files@[i as int]));
            assert(strs_view(labels@).skip(0) =~= strs_view(labels@));
        }
        insert_track(&mut forest, &labels, 0, &title, &f.path);
        proof {
            assert(files@.take(i as int + 1).drop_last() =~= files@.take(i as int));
            assert(files@.take(i as int + 1).last() == files@[i as int]);
        }
        i = i + 1;
    }
    proof {
        assert(files@.take(n as int) =~= files@);
    }
    forest
}

/// Sibling nodes are in ascending label order, at this level and every
/// level below.
pub open spec fn tag_forest_sorted(f: Seq<TagNodeV>) -> bool
    decreases f, 1nat,
{
    if f.len() == 0 {
        true
    } else {
        &&& tag_node_sorted(f[0])
        &&& f.len() >= 2 ==> lex_le(f[0].label, f[1].label)
        &&& tag_forest_sorted(f.drop_first())
    }
}

pub open spec fn tag_node_sorted(n: TagNodeV) -> bool
    decreases n, 0nat,
{
    tag_forest_sorted(n.children)
}

proof fn lemma_new_chain_sorted(labels: Seq<Seq<char>>, title: Seq<char>, path: Seq<char>)
    ensures
        tag_node_sorted(new_chain(labels, title, path)),
    decreases labels.len(),
{
    assert(tag_forest_sorted(Seq::<TagNodeV>::empty()));
    if labels.len() == 0 {
        assert(new_chain(labels, title, path).children =~= Seq::<TagNodeV>::empty());
    } else {
        lemma_new_chain_sorted(labels.drop_first(), title, path);
        let c = new_chain(labels, title, path);
        assert(c.children[0] == new_chain(labels.drop_first(), title, path));
        assert(c.children.drop_first() =~= Seq::<TagNodeV>::empty());
        assert(tag_forest_sorted(c.children));
    }
}

proof fn lemma_spec_insert_head(
    forest: Seq<TagNodeV>,
    labels: Seq<Seq<char>>,
    title: Seq<char>,
    path: Seq<char>,
)
    ensures
        spec_insert(forest, labels, title, path).len() > 0,
        ({
            let key = if labels.len() == 0 {
                title
            } else {
                labels[0]
            };
            let r = spec_insert(forest, labels, title, path);
            r[0].label == key || (forest.len() > 0 && r[0].label == forest[0].label)
        }),
{
    let key = if labels.len() == 0 {
        title
    } else {
        labels[0]
    };
    assert(new_chain(labels, title, path).label == key);
}

/// Filing a record into a sorted forest keeps it sorted.
proof fn lemma_insert_sorted(
    forest: Seq<TagNodeV>,
    labels: Seq<Seq<char>>,
    title: Seq<char>,
    path: Seq<char>,
)
    requires
        tag_forest_sorted(forest),
    ensures
        tag_forest_sorted(spec_insert(forest, labels, title, path)),
    decreases forest,
{
    let r = spec_insert(forest, labels, title, path);
    let key = if labels.len() == 0 {
        title
    } else {
        labels[0]
    };
    assert(tag_forest_sorted(Seq::<TagNodeV>::empty()));
    if forest.len() == 0 {
        lemma_new_chain_sorted(labels, title, path);
        assert(r =~= seq![new_chain(labels, title, path)]);
        assert(r.drop_first() =~= Seq::<TagNodeV>::empty());
        assert(tag_forest_sorted(r));
    } else {
        let f0 = forest[0];
        let rest = forest.drop_first();
        let walk = if labels.len() == 0 {
            lex_le(f0.label, title)
        } else {
            f0.label != labels[0] && lex_le(f0.label, labels[0])
        };
        if walk {
            lemma_insert_sorted(rest, labels, title, path);
            let rr = spec_insert(rest, labels, title, path);
            lemma_spec_insert_head(rest, labels, title, path);
            assert(r =~= seq![f0] + rr);
            assert(r.drop_first() =~= rr);
            assert(r[0] == f0);
            if rr.len() > 0 {
                assert(r[1] == rr[0]);
                if rr[0].label == key {
                    assert(lex_le(f0.label, r[1].label));
                } else {
                    assert(rest.len() > 0 && rr[0].label == rest[0].label);
                    assert(forest[1] == rest[0]);
                    assert(lex_le(f0.label, r[1].label));
                }
            }
            assert(tag_forest_sorted(r));
        } else if labels.len() > 0 && f0.label == labels[0] {
            assert(tag_node_sorted(f0));
            lemma_insert_sorted(f0.children, labels.drop_first(), title, path);
            let m = with_children(
                f0,
                spec_insert(f0.children, labels.drop_first(), title, path),
            );
            assert(tag_node_sorted(m));
            assert(r =~= seq![m] + rest);
            assert(r.drop_first() =~= rest);
            assert(r[0] == m);
            if rest.len() > 0 {
                assert(r[1] == rest[0]);
                assert(forest[1] == rest[0]);
                assert(lex_le(r[0].label, r[1].label));
            }
            assert(tag_forest_sorted(r));
        } else {
            let c = if labels.len() == 0 {
                leaf_node(title, path)
            } else {
                new_chain(labels, title, path)
            };
            lemma_lex_le_total(f0.label, key);
            lemma_new_chain_sorted(labels, title, path);
            assert(leaf_node(title, path).children =~= Seq::<TagNodeV>::empty());
            assert(tag_node_sorted(c));
            assert(c.label == key);
            assert(lex_le(key, f0.label));
            assert(r =~= seq![c] + forest);
            assert(r.drop_first() =~= forest);
            assert(r[0] == c);
            assert(r[1] == forest[0]);
            assert(tag_forest_sorted(r));
        }
    }
}

/// The ordering law of the genre-first builder: sibling nodes come out in
/// ascending label order at every level, so two builds over the same
/// records produce the same forest, node for node.
pub proof fn lemma_build_genre_tree_sorted(files: Seq<MediaFile>)
    ensures
        tag_forest_sorted(spec_build_genre_tree(files)),
    decreases files.len(),
{
    if files.len() == 0 {
        assert(tag_forest_sorted(Seq::<TagNodeV>::empty()));
    } else {
        lemma_build_genre_tree_sorted(files.drop_last());
        lemma_insert_sorted(
            spec_build_genre_tree(files.drop_last()),
            genre_level_labels(files.last()),
            title_label(files.last()),
            files.last().path@,
        );
    }
}

/// The ordering law of the creator-first builder.
pub proof fn lemma_build_creator_tree_sorted(files: Seq<MediaFile>)
    ensures
        tag_forest_sorted(spec_build_creator_tree(files)),
    decreases files.len(),
{
    if files.len() == 0 {
        assert(tag_forest_sorted(Seq::<TagNodeV>::empty()));
    } else {
        lemma_build_creator_tree_sorted(files.drop_last());
        lemma_insert_sorted(
            spec_build_creator_tree(files.drop_last()),
            creator_level_labels(files.last()),
            title_label(files.last()),
            files.last().path@,
        );
    }
}

/// Shape of a hierarchy forest whose category levels reach `depth` more
/// levels down: every node above the bottom is a category node — no file
/// paths, children one level shallower — and every bottom node is a track
/// node — no children, exactly one file path.  Sibling labels ascend at
/// every level and never repeat at category levels.
pub open spec fn tag_forest_wf(f: Seq<TagNodeV>, depth: nat) -> bool
    decreases f,
{
    if f.len() == 0 {
        true
    } else {
        &&& if depth > 0 {
            f[0].file_paths.len() == 0 && tag_forest_wf(f[0].children, (depth - 1) as nat)
        } else {
            f[0].children.len() == 0 && f[0].file_paths.len() == 1
        }
        &&& f.len() >= 2 ==> lex_le(f[0].label, f[1].label) && (depth > 0 ==> f[0].label
            != f[1].label)
        &&& tag_forest_wf(f.drop_first(), depth)
    }
}

proof fn lemma_new_chain_wf(labels: Seq<Seq<char>>, title: Seq<char>, path: Seq<char>)
    ensures
        tag_forest_wf(seq![new_chain(labels, title, path)], labels.len()),
    decreases labels.len(),
{
    let c = new_chain(labels, title, path);
    assert(seq![c][0] == c);
    assert(seq![c].drop_first() =~= Seq::<TagNodeV>::empty());
    assert(tag_forest_wf(Seq::<TagNodeV>::empty(), labels.len()));
    if labels.len() > 0 {
        lemma_new_chain_wf(labels.drop_first(), title, path);
        assert(c.children == seq![new_chain(labels.drop_first(), title, path)]);
    } else {
        assert(c.file_paths == seq![path]);
    }
}

/// Filing a record into a well-formed forest of matching depth keeps it
/// well-formed: category labels stay distinct and ascending, and every
/// track node keeps its single path.
proof fn lemma_insert_wf(
    forest: Seq<TagNodeV>,
    labels: Seq<Seq<char>>,
    title: Seq<char>,
    path: Seq<char>,
)
    requires
        tag_forest_wf(forest, labels.len()),
    ensures
        tag_forest_wf(spec_insert(forest, labels, title, path), labels.len()),
    decreases forest,
{
    let r = spec_insert(forest, labels, title, path);
    let depth = labels.len();
    let key = if labels.len() == 0 {
        title
    } else {
        labels[0]
    };
    assert(tag_forest_wf(Seq::<TagNodeV>::empty(), depth));
    if forest.len() == 0 {
        lemma_new_chain_wf(labels, title, path);
        assert(r =~= seq![new_chain(labels, title, path)]);
    } else {
        let f0 = forest[0];
        let rest = forest.drop_first();
        let walk = if labels.len() == 0 {
            lex_le(f0.label, title)
        } else {
            f0.label != labels[0] && lex_le(f0.label, labels[0])
        };
        if walk {
            lemma_insert_wf(rest, labels, title, path);
            let rr = spec_insert(rest, labels, title, path);
            lemma_spec_insert_head(rest, labels, title, path);
            assert(r =~= seq![f0] + rr);
            assert(r.drop_first() =~= rr);
            assert(r[0] == f0);
            assert(r[1] == rr[0]);
            if rr[0].label == key {
                assert(lex_le(f0.label, r[1].label));
                assert(depth > 0 ==> f0.label != r[1].label);
            } else {
                assert(rest.len() > 0 && rr[0].label == rest[0].label);
                assert(forest[1] == rest[0]);
            }
            assert(tag_forest_wf(r, depth));
        } else if labels.len() > 0 && f0.label == labels[0] {
            lemma_insert_wf(f0.children, labels.drop_first(), title, path);
            let m = with_children(
                f0,
                spec_insert(f0.children, labels.drop_first(), title, path),
            );
            assert(r =~= seq![m] + rest);
            assert(r.drop_first() =~= rest);
            assert(r[0] == m);
            if rest.len() > 0 {
                assert(r[1] == rest[0]);
                assert(forest[1] == rest[0]);
            }
            assert(tag_forest_wf(r, depth));
        } else {
            let c = new_chain(labels, title, path);
            lemma_new_chain_wf(labels, title, path);
            lemma_lex_le_total(f0.label, key);
            assert(c.label == key);
            assert(lex_le(key, f0.label));
            assert(r =~= seq![c] + forest);
            assert(r.drop_first() =~= forest);
            assert(r[0] == c);
            assert(r[1] == forest[0]);
            assert(seq![c][0] == c);
            assert(depth > 0 ==> key != f0.label);
            assert(tag_forest_wf(r, depth));
        }
    }
}

/// The shape law of the genre-first builder: three category levels — genre,
/// creator, album — each with distinct ascending sibling labels and no file
/// paths, and track nodes at the bottom, each with no children and exactly
/// one path.
pub proof fn lemma_build_genre_tree_wf(files: Seq<MediaFile>)
    ensures
        tag_forest_wf(spec_build_genre_tree(files), 3),
    decreases files.len(),
{
    if files.len() == 0 {
        assert(tag_forest_wf(Seq::<TagNodeV>::empty(), 3));
    } else {
        lemma_build_genre_tree_wf(files.drop_last());
        assert(genre_level_labels(files.last()).len() == 3);
        lemma_insert_wf(
            spec_build_genre_tree(files.drop_last()),
            genre_level_labels(files.last()),
            title_label(files.last()),
            files.last().path@,
        );
    }
}

/// The shape law of the creator-first builder: two category levels, then
/// track nodes.
pub proof fn lemma_build_creator_tree_wf(files: Seq<MediaFile>)
    ensures
        tag_forest_wf(spec_build_creator_tree(files), 2),
    decreases files.len(),
{
    if files.len() == 0 {
        assert(tag_forest_wf(Seq::<TagNodeV>::empty(), 2));
    } else {
        lemma_build_creator_tree_wf(files.drop_last());
        assert(creator_level_labels(files.last()).len() == 2);
        lemma_insert_wf(
            spec_build_creator_tree(files.drop_last()),
            creator_level_labels(files.last()),
            title_label(files.last()),
            files.last().path@,
        );
    }
}

/// Whether the forest holds a track node for `path` with label `title`
/// beneath the chain of category nodes labelled by `labels`.
pub open spec fn forest_contains_track(
    f: Seq<TagNodeV>,
    labels: Seq<Seq<char>>,
    title: Seq<char>,
    path: Seq<char>,
) -> bool
    decreases f,
{
    if f.len() == 0 {
        false
    } else if labels.len() == 0 {
        (f[0].label == title && f[0].file_paths.contains(path)) || forest_contains_track(
            f.drop_first(),
            labels,
            title,
            path,
        )
    } else if f[0].label == labels[0] {
        forest_contains_track(f[0].children, labels.drop_first(), title, path)
            || forest_contains_track(f.drop_first(), labels, title, path)
    } else {
        forest_contains_track(f.drop_first(), labels, title, path)
    }
}

proof fn lemma_new_chain_contains(labels: Seq<Seq<char>>, title: Seq<char>, path: Seq<char>)
    ensures
        forest_contains_track(seq![new_chain(labels, title, path)], labels, title, path),
    decreases labels.len(),
{
    let c = new_chain(labels, title, path);
    let s = seq![c];
    assert(s[0] == c);
    assert(s.drop_first() =~= Seq::<TagNodeV>::empty());
    if labels.len() == 0 {
        assert(c.file_paths == seq![path]);
        assert(seq![path][0] == path);
        assert(c.file_paths.contains(path));
    } else {
        lemma_new_chain_contains(labels.drop_first(), title, path);
        let sub = new_chain(labels.drop_first(), title, path);
        assert(c.children == seq![sub]);
        assert(c.label == labels[0]);
        assert(forest_contains_track(c.children, labels.drop_first(), title, path));
    }
}

/// Filing a record puts it in the forest: the result holds a track node for
/// it beneath exactly its category labels.
proof fn lemma_insert_contains(
    forest: Seq<TagNodeV>,
    labels: Seq<Seq<char>>,
    title: Seq<char>,
    path: Seq<char>,
)
    ensures
        forest_contains_track(spec_insert(forest, labels, title, path), labels, title, path),
    decreases forest,
{
    let r = spec_insert(forest, labels, title, path);
    if forest.len() == 0 {
        lemma_new_chain_contains(labels, title, path);
        assert(r =~= seq![new_chain(labels, title, path)]);
    } else {
        let f0 = forest[0];
        let rest = forest.drop_first();
        let walk = if labels.len() == 0 {
            lex_le(f0.label, title)
        } else {
            f0.label != labels[0] && lex_le(f0.label, labels[0])
        };
        if walk {
            lemma_insert_contains(rest, labels, title, path);
            let rr = spec_insert(rest, labels, title, path);
            assert(r =~= seq![f0] + rr);
            assert(r[0] == f0);
            assert(r.drop_first() =~= rr);
        } else if labels.len() > 0 && f0.label == labels[0] {
            lemma_insert_contains(f0.children, labels.drop_first(), title, path);
            let m = with_children(
                f0,
                spec_insert(f0.children, labels.drop_first(), title, path),
            );
            assert(r =~= seq![m] + rest);
            assert(r[0] == m);
            assert(m.label == labels[0]);
            assert(forest_contains_track(m.children, labels.drop_first(), title, path));
        } else {
            lemma_new_chain_contains(labels, title, path);
            let c = new_chain(labels, title, path);
            assert(r =~= seq![c] + forest);
            assert(r[0] == c);
            assert(seq![c][0] == c);
            assert(seq![c].drop_first() =~= Seq::<TagNodeV>::empty());
            assert(!forest_contains_track(Seq::<TagNodeV>::empty(), labels, title, path));
            if labels.len() == 0 {
                assert(c.label == title && c.file_paths.contains(path));
            } else {
                assert(forest_contains_track(c.children, labels.drop_first(), title, path));
            }
        }
    }
}

/// Filing one record never loses another: whatever track the forest held,
/// the forest after an insertion still holds it.
proof fn lemma_insert_preserves_contains(
    forest: Seq<TagNodeV>,
    labels: Seq<Seq<char>>,
    title: Seq<char>,
    path: Seq<char>,
    labels2: Seq<Seq<char>>,
    title2: Seq<char>,
    path2: Seq<char>,
)
    requires
        forest_contains_track(forest, labels2, title2, path2),
    ensures
        forest_contains_track(
            spec_insert(forest, labels, title, path),
            labels2,
            title2,
            path2,
        ),
    decreases forest,
{
    let r = spec_insert(forest, labels, title, path);
    let f0 = forest[0];
    let rest = forest.drop_first();
    let walk = if labels.len() == 0 {
        lex_le(f0.label, title)
    } else {
        f0.label != labels[0] && lex_le(f0.label, labels[0])
    };
    if walk {
        let rr = spec_insert(rest, labels, title, path);
        assert(r =~= seq![f0] + rr);
        assert(r[0] == f0);
        assert(r.drop_first() =~= rr);
        if labels2.len() == 0 && f0.label == title2 && f0.file_paths.contains(path2) {
        } else if labels2.len() > 0 && f0.label == labels2[0] && forest_contains_track(
            f0.children,
            labels2.drop_first(),
            title2,
            path2,
        ) {
        } else {
            assert(forest_contains_track(rest, labels2, title2, path2));
            lemma_insert_preserves_contains(rest, labels, title, path, labels2, title2, path2);
        }
    } else if labels.len() > 0 && f0.label == labels[0] {
        let m = with_children(f0, spec_insert(f0.children, labels.drop_first(), title, path));
        assert(r =~= seq![m] + rest);
        assert(r[0] == m);
        assert(r.drop_first() =~= rest);
        if labels2.len() == 0 && f0.label == title2 && f0.file_paths.contains(path2) {
            assert(m.label == title2 && m.file_paths.contains(path2));
        } else if labels2.len() > 0 && f0.label == labels2[0] && forest_contains_track(
            f0.children,
            labels2.drop_first(),
            title2,
            path2,
        ) {
            lemma_insert_preserves_contains(
                f0.children,
                labels.drop_first(),
                title,
                path,
                labels2.drop_first(),
                title2,
                path2,
            );
            assert(forest_contains_track(m.children, labels2.drop_first(), title2, path2));
        } else {
            assert(forest_contains_track(rest, labels2, title2, path2));
        }
    } else {
        let c = new_chain(labels, title, path);
        assert(r =~= seq![c] + forest);
        assert(r[0] == c);
        assert(r.drop_first() =~= forest);
    }
}

/// Completeness of the genre-first builder: every record of the input is
/// filed in the result, beneath its genre, creator and album labels, under
/// its title label, with its path.
pub proof fn lemma_build_genre_tree_complete(files: Seq<MediaFile>, k: int)
    requires
        0 <= k < files.len(),
    ensures
        forest_contains_track(
            spec_build_genre_tree(files),
            genre_level_labels(files[k]),
            title_label(files[k]),
            files[k].path@,
        ),
    decreases files.len(),
{
    let prev = spec_build_genre_tree(files.drop_last());
    let last = files.last();
    if k == files.len() - 1 {
        lemma_insert_contains(prev, genre_level_labels(last), title_label(last), last.path@);
    } else {
        lemma_build_genre_tree_complete(files.drop_last(), k);
        assert(files.drop_last()[k] == files[k]);
        lemma_insert_preserves_contains(
            prev,
            genre_level_labels(last),
            title_label(last),
            last.path@,
            genre_level_labels(files[k]),
            title_label(files[k]),
            files[k].path@,
        );
    }
}

/// Completeness of the creator-first builder.
pub proof fn lemma_build_creator_tree_complete(files: Seq<MediaFile>, k: int)
    requires
        0 <= k < files.len(),
    ensures
        forest_contains_track(
            spec_build_creator_tree(files),
            creator_level_labels(files[k]),
            title_label(files[k]),
            files[k].path@,
        ),
    decreases files.len(),
{
    let prev = spec_build_creator_tree(files.drop_last());
    let last = files.last();
    if k == files.len() - 1 {
        lemma_insert_contains(prev, creator_level_labels(last), title_label(last), last.path@);
    } else {
        lemma_build_creator_tree_complete(files.drop_last(), k);
        assert(files.drop_last()[k] == files[k]);
        lemma_insert_preserves_contains(
            prev,
            creator_level_labels(last),
            title_label(last),
            last.path@,
            creator_level_labels(files[k]),
            title_label(files[k]),
            files[k].path@,
        );
    }
}

/// The genre fallback: a record with no genre tag is filed under a genre
/// node labelled with the placeholder.
pub proof fn lemma_missing_genre_under_unknown(files: Seq<MediaFile>, k: int)
    requires
        0 <= k < files.len(),
        files[k].metadata.genre is None,
    ensures
        forest_contains_track(
            spec_build_genre_tree(files),
            seq![
                unknown_label(),
                creator_label(files[k].metadata),
                album_label(files[k].metadata),
            ],
            title_label(files[k]),
            files[k].path@,
        ),
{
    lemma_build_genre_tree_complete(files, k);
    assert(genre_level_labels(files[k]) =~= seq![
        unknown_label(),
        creator_label(files[k].metadata),
        album_label(files[k].metadata),
    ]);
}

/// The title fallback: a record with no title tag is filed under its file's
/// base name, extension included.
pub proof fn lemma_missing_title_uses_base_name(files: Seq<MediaFile>, k: int)
    requires
        0 <= k < files.len(),
        files[k].metadata.title is None,
    ensures
        forest_contains_track(
            spec_build_genre_tree(files),
            genre_level_labels(files[k]),
            base_name_of(files[k].path@),
            files[k].path@,
        ),
{
    lemma_build_genre_tree_complete(files, k);
}

/// The side file that extracted cover art is written to: the path with its
/// extension replaced by `cover.jpg`, or with `.cover.jpg` appended when
/// the file name has no extension.
pub open spec fn cover_art_path_of(p: Seq<char>) -> Seq<char> {
    let sl = crate::text::last_index_of(p, '/');
    let dot = crate::text::last_index_of(p, '.');
    if dot > sl + 1 {
        p.take(dot) + ".cover.jpg"@
    } else {
        p + ".cover.jpg"@
    }
}

/// The path of the cover-art side file next to a media file.
pub fn cover_art_path(path: &String) -> (r: String)
    ensures
        r@ == cover_art_path_of(path@),
{
    proof {
        crate::text::lemma_last_index_of(path@, '/');
        crate::text::lemma_last_index_of(path@, '.');
    }
    let slash = crate::text::find_last_char(path.as_str(), '/');
    let dot = crate::text::find_last_char(path.as_str(), '.');
    let cut: Option<usize> = match (dot, slash) {
        (Some(d), Some(sl)) => if d > 0 && d - 1 > sl {
            Some(d)
        } else {
            None
        },
        (Some(d), None) => if d > 0 {
            Some(d)
        } else {
            None
        },
        _ => None,
    };
    match cut {
        Some(d) => {
            let mut r = String::from_str(path.as_str().substring_char(0, d));
            r.append(".cover.jpg");
            r
        },
        None => {
            let mut r = path.clone();
            r.append(".cover.jpg");
            r
        },
    }
}

} // verus!





