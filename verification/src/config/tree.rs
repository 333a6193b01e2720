//! Configuration documents: a stage of the defaults, with the customer's
//! settings merged over it.

use crate::error::{failure_of, GatewayError};
use crate::text::same_text;
use vstd::prelude::*;

verus! {

/// The key of a setting.
#[derive(Debug)]
pub enum Key {
    /// A text.
    Text(String),
    /// Any other scalar or structure, in its YAML notation.
    Other(String),
}

/// A key, with its text as a sequence of characters.
pub enum KeyView {
    /// A text.
    Text(Seq<char>),
    /// Any other scalar or structure, in its YAML notation.
    Other(Seq<char>),
}

impl View for Key {
    type V = KeyView;

    open spec fn view(&self) -> KeyView {
        match self {
            Key::Text(s) => KeyView::Text(s@),
            Key::Other(s) => KeyView::Other(s@),
        }
    }
}

/// A document. What its leaves hold is left open.
#[derive(Debug)]
pub enum Node<L> {
    /// A mapping.
    Mapping(Vec<(Key, Node<L>)>),
    /// A node with a tag in front.
    Tagged(String, Box<Node<L>>),
    /// A scalar or a sequence.
    Leaf(L),
}

/// A document, with its entries as sequences.
pub enum Tree<L> {
    /// A mapping.
    Mapping(Seq<(KeyView, Tree<L>)>),
    /// A node with a tag in front.
    Tagged(Seq<char>, Box<Tree<L>>),
    /// A scalar or a sequence.
    Leaf(L),
}

/// The tree of a document, each leaf by its view.
pub open spec fn tree_of<L: View>(node: Node<L>) -> Tree<L::V>
    decreases node,
{
    match node {
        Node::Mapping(entries) => Tree::Mapping(entries_of(entries@)),
        Node::Tagged(tag, inner) => Tree::Tagged(tag@, Box::new(tree_of(*inner))),
        Node::Leaf(leaf) => Tree::Leaf(leaf@),
    }
}

/// The trees of a mapping's entries.
pub open spec fn entries_of<L: View>(entries: Seq<(Key, Node<L>)>) -> Seq<(KeyView, Tree<L::V>)>
    decreases entries,
{
    if entries.len() == 0 {
        Seq::empty()
    } else {
        entries_of(entries.drop_last()).push((entries.last().0@, tree_of(entries.last().1)))
    }
}

/// The entries of a mapping are taken one by one.
proof fn lemma_entries_of<L: View>(entries: Seq<(Key, Node<L>)>)
    ensures
        entries_of(entries).len() == entries.len(),
        forall|i: int|
            0 <= i < entries.len() ==> #[trigger] entries_of(entries)[i] == (
                entries[i].0@,
                tree_of(entries[i].1),
            ),
    decreases entries.len(),
{
    if entries.len() > 0 {
        lemma_entries_of(entries.drop_last());
        assert forall|i: int| 0 <= i < entries.len() implies #[trigger] entries_of(entries)[i] == (
            entries[i].0@,
            tree_of(entries[i].1),
        ) by {
            if i < entries.len() - 1 {
                assert(entries_of(entries)[i] == entries_of(entries.drop_last())[i]);
            }
        }
    }
}

/// The position of a key's first entry, if it has one.
pub open spec fn position<L>(entries: Seq<(KeyView, Tree<L>)>, key: KeyView) -> Option<int>
    decreases entries.len(),
{
    if entries.len() == 0 {
        None
    } else {
        match position(entries.drop_last(), key) {
            Some(i) => Some(i),
            None => if entries.last().0 == key {
                Some(entries.len() - 1)
            } else {
                None
            },
        }
    }
}

/// The value of a key, if it has one.
pub open spec fn setting<L>(entries: Seq<(KeyView, Tree<L>)>, key: KeyView) -> Option<Tree<L>> {
    match position(entries, key) {
        Some(i) => Some(entries[i].1),
        None => None,
    }
}

/// A position is that of the first entry with the key.
pub proof fn lemma_position<L>(entries: Seq<(KeyView, Tree<L>)>, key: KeyView)
    ensures
        match position(entries, key) {
            Some(i) => {
                &&& 0 <= i < entries.len()
                &&& entries[i].0 == key
                &&& forall|k: int| 0 <= k < i ==> (#[trigger] entries[k]).0 != key
            },
            None => forall|k: int| 0 <= k < entries.len() ==> (#[trigger] entries[k]).0 != key,
        },
    decreases entries.len(),
{
    if entries.len() > 0 {
        let init = entries.drop_last();
        lemma_position(init, key);
        assert forall|k: int| 0 <= k < entries.len() - 1 implies #[trigger] entries[k]
            == init[k] by {}
    }
}

/// The first entry with a key is its position.
pub proof fn lemma_is_position<L>(entries: Seq<(KeyView, Tree<L>)>, key: KeyView, i: int)
    requires
        0 <= i < entries.len(),
        entries[i].0 == key,
        forall|k: int| 0 <= k < i ==> (#[trigger] entries[k]).0 != key,
    ensures
        position(entries, key) == Some(i),
{
    lemma_position(entries, key);
}

// ---------------------------------------------------------------------
// Merging
// ---------------------------------------------------------------------

/// One mapping merged over another, entry by entry.
pub open spec fn merged<L>(
    base: Seq<(KeyView, Tree<L>)>,
    over: Seq<(KeyView, Tree<L>)>,
) -> Seq<(KeyView, Tree<L>)>
    decreases over,
{
    if over.len() == 0 {
        base
    } else {
        placed(merged(base, over.drop_last()), over.last().0, over.last().1)
    }
}

/// One setting merged over a mapping: where both the old value and the new are
/// mappings they are merged, else the new value stands. A new key goes to the
/// end.
pub open spec fn placed<L>(base: Seq<(KeyView, Tree<L>)>, key: KeyView, value: Tree<L>) -> Seq<
    (KeyView, Tree<L>),
>
    decreases value,
{
    match position(base, key) {
        None => base.push((key, value)),
        Some(i) => match (base[i].1, value) {
            (Tree::Mapping(b), Tree::Mapping(o)) => base.update(i, (key, Tree::Mapping(merged(b, o)))),
            _ => base.update(i, (key, value)),
        },
    }
}

/// Whether two keys are the same.
fn same_key(a: &Key, b: &Key) -> (r: bool)
    ensures
        r == (a@ == b@),
{
    match (a, b) {
        (Key::Text(x), Key::Text(y)) => same_text(x.as_str(), y.as_str()),
        (Key::Other(x), Key::Other(y)) => same_text(x.as_str(), y.as_str()),
        _ => false,
    }
}

/// The position of a key's first entry.
fn find<L: View>(entries: &Vec<(Key, Node<L>)>, key: &Key) -> (r: Option<usize>)
    ensures
        match r {
            Some(i) => i < entries@.len() && position(entries_of(entries@), key@) == Some(i as int),
            None => position(entries_of(entries@), key@) is None,
        },
{
    proof {
        lemma_entries_of(entries@);
        lemma_position(entries_of(entries@), key@);
    }
    let mut i: usize = 0;
    while i < entries.len()
        invariant
            i <= entries@.len(),
            entries_of(entries@).len() == entries@.len(),
            forall|k: int|
                0 <= k < entries@.len() ==> #[trigger] entries_of(entries@)[k] == (
                    entries@[k].0@,
                    tree_of(entries@[k].1),
                ),
            forall|k: int| 0 <= k < i ==> (#[trigger] entries_of(entries@)[k]).0 != key@,
        decreases entries@.len() - i,
    {
        if same_key(&entries[i].0, key) {
            proof {
                lemma_is_position(entries_of(entries@), key@, i as int);
            }
            return Some(i);
        }
        i = i + 1;
    }
    None
}

/// Merge one mapping over another: nested mappings are merged, scalars and
/// sequences are overwritten.
pub fn deep_merge<L: View>(base: &mut Vec<(Key, Node<L>)>, over: Vec<(Key, Node<L>)>)
    ensures
        entries_of(final(base)@) == merged(entries_of(old(base)@), entries_of(over@)),
    decreases over@,
{
    let ghost whole = over@;
    let mut rest = over;
    match rest.pop() {
        None => {},
        Some(entry) => {
            let (key, value) = entry;
            assert(rest@ =~= whole.drop_last());
            proof {
                lemma_entries_of(whole);
            }
            assert(entries_of(whole).drop_last() =~= entries_of(whole.drop_last()));
            deep_merge(base, rest);
            place(base, key, value);
        },
    }
}

/// Merge one setting over a mapping.
fn place<L: View>(base: &mut Vec<(Key, Node<L>)>, key: Key, value: Node<L>)
    ensures
        entries_of(final(base)@) == placed(entries_of(old(base)@), key@, tree_of(value)),
    decreases value,
{
    proof {
        lemma_entries_of(base@);
    }
    let ghost before = base@;
    match find(base, &key) {
        None => {
            base.push((key, value));
            assert(base@.drop_last() =~= before);
        },
        Some(i) => {
            let (_, old_value) = base.remove(i);
            match (old_value, value) {
                (Node::Mapping(b), Node::Mapping(o)) => {
                    let mut inner = b;
                    deep_merge(&mut inner, o);
                    base.insert(i, (key, Node::Mapping(inner)));
                },
                (_, v) => {
                    base.insert(i, (key, v));
                },
            }
            proof {
                lemma_entries_of(base@);
                assert(entries_of(base@) =~= placed(entries_of(before), key@, tree_of(value)));
            }
        },
    }
}

/// No key has two entries.
pub open spec fn has_distinct_keys<L>(entries: Seq<(KeyView, Tree<L>)>) -> bool {
    forall|i: int, k: int|
        0 <= i < k < entries.len() ==> (#[trigger] entries[i]).0 != (#[trigger] entries[k]).0
}

/// What one setting becomes when another is merged over it.
pub open spec fn combined<L>(base: Option<Tree<L>>, over: Option<Tree<L>>) -> Option<Tree<L>> {
    match (base, over) {
        (b, None) => b,
        (Some(Tree::Mapping(b)), Some(Tree::Mapping(o))) => Some(Tree::Mapping(merged(b, o))),
        (_, o) => o,
    }
}

proof fn lemma_placed<L>(
    base: Seq<(KeyView, Tree<L>)>,
    key: KeyView,
    value: Tree<L>,
    asked: KeyView,
)
    ensures
        setting(placed(base, key, value), asked) == (if asked == key {
            combined(setting(base, key), Some(value))
        } else {
            setting(base, asked)
        }),
{
    let after = placed(base, key, value);
    lemma_position(base, key);
    lemma_position(base, asked);
    lemma_position(after, asked);
    match position(base, key) {
        None => {
            assert(after.drop_last() =~= base);
        },
        Some(i) => {
            assert(after.len() == base.len());
            assert(forall|k: int| 0 <= k < base.len() ==> (#[trigger] after[k]).0 == base[k].0);
            match position(base, asked) {
                Some(j) => {
                    assert(after[j].0 == base[j].0);
                    assert forall|k: int| 0 <= k < j implies (#[trigger] after[k]).0 != asked by {
                        assert(after[k].0 == base[k].0);
                    }
                    lemma_is_position(after, asked, j);
                },
                None => {},
            }
        },
    }
}

/// A setting of the upper mapping wins; one that it does not make survives as
/// it was; where both are mappings they are merged in turn.
pub proof fn lemma_merged_setting<L>(
    base: Seq<(KeyView, Tree<L>)>,
    over: Seq<(KeyView, Tree<L>)>,
    key: KeyView,
)
    requires
        has_distinct_keys(over),
    ensures
        setting(merged(base, over), key) == combined(setting(base, key), setting(over, key)),
    decreases over.len(),
{
    if over.len() > 0 {
        let init = over.drop_last();
        let last = over.last();
        lemma_merged_setting(base, init, key);
        lemma_placed(merged(base, init), last.0, last.1, key);
        lemma_position(over, key);
        lemma_position(init, key);
        if last.0 == key {
            assert forall|k: int| 0 <= k < init.len() implies (#[trigger] init[k]).0 != key by {
                assert(over[k].0 != over[over.len() - 1].0);
            }
            assert(position(init, key) is None);
            assert(position(over, key) == Some(over.len() - 1));
        } else {
            assert(position(over, key) == position(init, key));
        }
    }
}

// ---------------------------------------------------------------------
// Stages
// ---------------------------------------------------------------------

/// Defaults with the customer's settings merged over one stage. Nothing
/// changes where the stage is not there, or one of the two is no mapping.
pub open spec fn stage_merged<L>(all: Tree<L>, stage: Seq<char>, customer: Tree<L>) -> Tree<L> {
    match (all, customer) {
        (Tree::Mapping(top), Tree::Mapping(over)) => match position(top, KeyView::Text(stage)) {
            Some(i) => match top[i].1 {
                Tree::Mapping(base) => Tree::Mapping(
                    top.update(i, (KeyView::Text(stage), Tree::Mapping(merged(base, over)))),
                ),
                _ => all,
            },
            None => all,
        },
        _ => all,
    }
}

/// Merge the customer's settings over one stage of the defaults.
pub fn merge_into_stage<L: View>(all: Node<L>, stage: &str, customer: Node<L>) -> (r: Node<L>)
    ensures
        tree_of(r) == stage_merged(tree_of(all), stage@, tree_of(customer)),
{
    match (all, customer) {
        (Node::Mapping(entries), Node::Mapping(over)) => {
            let mut top = entries;
            let ghost before = top@;
            proof {
                lemma_entries_of(before);
            }
            let key = Key::Text(stage.to_owned());
            match find(&top, &key) {
                Some(i) => {
                    let (old_key, old_value) = top.remove(i);
                    match old_value {
                        Node::Mapping(base) => {
                            let mut inner = base;
                            deep_merge(&mut inner, over);
                            top.insert(i, (key, Node::Mapping(inner)));
                            proof {
                                lemma_entries_of(top@);
                                let expected = stage_merged(
                                    tree_of(all),
                                    stage@,
                                    tree_of(customer),
                                );
                                assert(entries_of(top@) =~= expected->Mapping_0);
                            }
                        },
                        v => {
                            top.insert(i, (old_key, v));
                            assert(top@ =~= before);
                        },
                    }
                },
                None => {},
            }
            Node::Mapping(top)
        },
        (all, _) => all,
    }
}

/// A node without the tags in front of it.
pub open spec fn untagged<L>(t: Tree<L>) -> Tree<L>
    decreases t,
{
    match t {
        Tree::Tagged(_, inner) => untagged(*inner),
        _ => t,
    }
}

/// The block of a stage, if the document has one.
pub open spec fn stage_block<L>(all: Tree<L>, stage: Seq<char>) -> Option<Tree<L>> {
    match untagged(all) {
        Tree::Mapping(top) => setting(top, KeyView::Text(stage)),
        _ => None,
    }
}

/// The block of a stage.
fn take_block<L: View>(all: Node<L>, stage: &str) -> (r: Option<Node<L>>)
    ensures
        match r {
            Some(block) => stage_block(tree_of(all), stage@) == Some(tree_of(block)),
            None => stage_block(tree_of(all), stage@) is None,
        },
    decreases all,
{
    match all {
        Node::Tagged(_, inner) => take_block(*inner, stage),
        Node::Leaf(_) => None,
        Node::Mapping(entries) => {
            let mut top = entries;
            proof {
                lemma_entries_of(top@);
            }
            match find(&top, &Key::Text(stage.to_owned())) {
                Some(i) => {
                    let (_, block) = top.remove(i);
                    Some(block)
                },
                None => None,
            }
        },
    }
}

/// The defaults as they apply: with the customer's settings, if there are any.
pub open spec fn applied<L>(
    defaults: Tree<L>,
    customer: Option<Tree<L>>,
    stage: Seq<char>,
) -> Tree<L> {
    match customer {
        Some(over) => stage_merged(defaults, stage, over),
        None => defaults,
    }
}

/// An optional document as an optional tree.
pub open spec fn optional_tree<L: View>(node: Option<Node<L>>) -> Option<Tree<L::V>> {
    match node {
        Some(n) => Some(tree_of(n)),
        None => None,
    }
}

/// What is said where the defaults have no block for a stage.
pub open spec fn missing_block(stage: Seq<char>) -> Seq<char> {
    "cfg.defaults.yml missing block: "@ + stage
}

/// The block that a stage is configured by: that of the defaults, with the
/// customer's settings merged over it.
pub fn load_config_from<L: View>(
    defaults: Node<L>,
    customer: Option<Node<L>>,
    env_name: &str,
) -> (r: Result<Node<L>, GatewayError>)
    ensures
        match r {
            Ok(block) => stage_block(
                applied(tree_of(defaults), optional_tree(customer), env_name@),
                env_name@,
            ) == Some(tree_of(block)),
            Err(e) => {
                &&& stage_block(
                    applied(tree_of(defaults), optional_tree(customer), env_name@),
                    env_name@,
                ) is None
                &&& e.message@ == missing_block(env_name@)
            },
        },
{
    let all = match customer {
        Some(over) => merge_into_stage(defaults, env_name, over),
        None => defaults,
    };
    match take_block(all, env_name) {
        Some(block) => Ok(block),
        None => Err(failure_of("cfg.defaults.yml missing block: ", env_name)),
    }
}

/// In the block of a stage the customer's settings win, and the defaults
/// survive for every key that the customer does not set.
pub proof fn lemma_customer_over_defaults<L>(
    top: Seq<(KeyView, Tree<L>)>,
    base: Seq<(KeyView, Tree<L>)>,
    over: Seq<(KeyView, Tree<L>)>,
    stage: Seq<char>,
    key: KeyView,
)
    requires
        setting(top, KeyView::Text(stage)) == Some(Tree::Mapping(base)),
        has_distinct_keys(over),
    ensures
        ({
            let all = applied(Tree::Mapping(top), Some(Tree::Mapping(over)), stage);
            &&& stage_block(all, stage) == Some(Tree::Mapping(merged(base, over)))
            &&& setting(merged(base, over), key) == combined(
                setting(base, key),
                setting(over, key),
            )
        }),
{
    let k = KeyView::Text(stage);
    let all = applied(Tree::Mapping(top), Some(Tree::Mapping(over)), stage);
    lemma_position(top, k);
    let i = position(top, k)->0;
    let after = top.update(i, (k, Tree::Mapping(merged(base, over))));
    assert(all == Tree::Mapping(after));
    assert forall|j: int| 0 <= j < i implies (#[trigger] after[j]).0 != k by {
        assert(after[j] == top[j]);
    }
    lemma_is_position(after, k, i);
    lemma_merged_setting(base, over, key);
}

/// Other stages are left as they were.
pub proof fn lemma_other_stages_kept<L>(
    top: Seq<(KeyView, Tree<L>)>,
    customer: Tree<L>,
    stage: Seq<char>,
    other: Seq<char>,
)
    requires
        other != stage,
    ensures
        stage_block(stage_merged(Tree::Mapping(top), stage, customer), other) == stage_block(
            Tree::Mapping(top),
            other,
        ),
{
    let k = KeyView::Text(stage);
    let o = KeyView::Text(other);
    lemma_position(top, k);
    lemma_position(top, o);
    match (customer, position(top, k)) {
        (Tree::Mapping(over), Some(i)) => match top[i].1 {
            Tree::Mapping(base) => {
                let after = top.update(i, (k, Tree::Mapping(merged(base, over))));
                assert(forall|j: int| 0 <= j < top.len() ==> (#[trigger] after[j]).0 == top[j].0);
                lemma_position(after, o);
                match position(top, o) {
                    Some(j) => {
                        assert forall|m: int| 0 <= m < j implies (#[trigger] after[m]).0 != o by {
                            assert(after[m].0 == top[m].0);
                        }
                        assert(after[j].0 == top[j].0);
                        lemma_is_position(after, o, j);
                    },
                    None => {},
                }
            },
            _ => {},
        },
        _ => {},
    }
}

/// What a merge makes of a setting: one that the upper mapping does not make stays as it
/// was; one that it makes is as it makes it; and where both make a mapping of it, the
/// same holds of every setting in that.
pub proof fn lemma_upper_settings_win<L>(
    base: Seq<(KeyView, Tree<L>)>,
    over: Seq<(KeyView, Tree<L>)>,
    key: KeyView,
    inner: KeyView,
)
    requires
        has_distinct_keys(over),
    ensures
        ({
            let below = setting(base, key);
            let above = setting(over, key);
            let made = setting(merged(base, over), key);
            &&& above is None ==> made == below
            &&& above is Some && !(above->0 is Mapping) ==> made == above
            &&& above is Some && (below is None || !(below->0 is Mapping)) ==> made == above
            &&& (below matches Some(Tree::Mapping(b)) && above matches Some(Tree::Mapping(o))
                && has_distinct_keys(o)) ==> {
                let b = below->0->Mapping_0;
                let o = above->0->Mapping_0;
                &&& made matches Some(Tree::Mapping(m))
                &&& setting(o, inner) is None ==> setting(m, inner) == setting(b, inner)
                &&& setting(o, inner) is Some && !(setting(o, inner)->0 is Mapping) ==> setting(
                    m,
                    inner,
                ) == setting(o, inner)
            }
        }),
{
    lemma_merged_setting(base, over, key);
    if let Some(Tree::Mapping(b)) = setting(base, key) {
        if let Some(Tree::Mapping(o)) = setting(over, key) {
            if has_distinct_keys(o) {
                lemma_merged_setting(b, o, inner);
            }
        }
    }
}

/// Without settings of the customer the defaults apply as they are, and so they do where
/// the customer's are no mapping or the stage is not among them.
pub proof fn lemma_defaults_apply<L>(
    defaults: Tree<L>,
    customer: Tree<L>,
    stage: Seq<char>,
)
    ensures
        applied(defaults, None, stage) == defaults,
        !(customer is Mapping) ==> applied(defaults, Some(customer), stage) == defaults,
        (defaults matches Tree::Mapping(top) && setting(top, KeyView::Text(stage)) is None)
            ==> applied(defaults, Some(customer), stage) == defaults && stage_block(
            defaults,
            stage,
        ) is None,
{
}

/// Tags in front of a document do not hide its stages.
pub proof fn lemma_tags_hide_nothing<L>(tag: Seq<char>, inner: Tree<L>, stage: Seq<char>)
    ensures
        stage_block(Tree::Tagged(tag, Box::new(inner)), stage) == stage_block(inner, stage),
        inner matches Tree::Mapping(top) ==> stage_block(inner, stage) == setting(
            top,
            KeyView::Text(stage),
        ),
        inner is Leaf ==> stage_block(inner, stage) is None,
{
}

} // verus!
