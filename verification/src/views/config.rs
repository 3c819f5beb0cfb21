//! The decisions of the settings view: what the search of the object tree
//! keeps, which directories stand open, and how the list of watched file
//! patterns changes.

use crate::config::{
    copy_node, lemma_node_views, node_views, AppConfig, NodeView, ProjectUnitNode,
};
use crate::text::{strip_prefix, text_views};
use vstd::prelude::*;

verus! {

/// What a check for updates found.
#[derive(Clone, Debug, PartialEq, Eq)]
pub struct CheckUpdateResult {
    pub update_available: bool,
    pub latest_version: String,
    /// Where the latest release can be had by hand.
    pub release_url: String,
    pub found_binary: bool,
}

/// What the settings view remembers between frames.
#[derive(Debug)]
pub struct ConfigViewState {
    pub check_update: Option<Box<CheckUpdateResult>>,
    pub watch_pattern_text: String,
    pub queue_update_check: bool,
    pub load_error: Option<String>,
    pub unit_search: String,
    pub available_wsl_distros: Option<Vec<String>>,
}

impl Default for ConfigViewState {
    fn default() -> (state: ConfigViewState)
        ensures
            state.check_update is None,
            state.watch_pattern_text@.len() == 0,
            !state.queue_update_check,
            state.load_error is None,
            state.unit_search@.len() == 0,
            state.available_wsl_distros is None,
    {
        ConfigViewState {
            check_update: None,
            watch_pattern_text: String::new(),
            queue_update_check: false,
            load_error: None,
            unit_search: String::new(),
            available_wsl_distros: None,
        }
    }
}

/// How the directories of the object tree are to stand.
#[derive(Clone, Copy, Debug, PartialEq, Eq, Structural)]
pub enum NodeOpen {
    /// As the user left them.
    Default,
    /// All open.
    Open,
    /// All closed.
    Close,
    /// Open where they hold the selected object.
    Object,
}

impl Default for NodeOpen {
    fn default() -> (open: NodeOpen)
        ensures
            open == NodeOpen::Default,
    {
        NodeOpen::Default
    }
}

/// Whether a directory is forced open or closed: not at all by default, and
/// for the selected object as far as it is known whether the directory
/// holds it.
pub fn node_open_state(node_open: NodeOpen, contains_obj: Option<bool>) -> (open: Option<bool>)
    ensures
        open == match node_open {
            NodeOpen::Default => None,
            NodeOpen::Open => Some(true),
            NodeOpen::Close => Some(false),
            NodeOpen::Object => contains_obj,
        },
{
    match node_open {
        NodeOpen::Default => None,
        NodeOpen::Open => Some(true),
        NodeOpen::Close => Some(false),
        NodeOpen::Object => contains_obj,
    }
}

/// How the tree is to stand after the search text was edited: when the
/// search is cleared the tree opens at the selected object, when a search
/// begins everything opens, and else nothing changes.
pub fn search_changed(
    had_search: bool,
    has_search: bool,
    root_open: Option<bool>,
    node_open: NodeOpen,
) -> (next: (Option<bool>, NodeOpen))
    ensures
        next == if !has_search && had_search {
            (Some(true), NodeOpen::Object)
        } else if has_search && !had_search {
            (Some(true), NodeOpen::Open)
        } else {
            (root_open, node_open)
        },
{
    if !has_search {
        if had_search {
            (Some(true), NodeOpen::Object)
        } else {
            (root_open, node_open)
        }
    } else if !had_search {
        (Some(true), NodeOpen::Open)
    } else {
        (root_open, node_open)
    }
}

/// The make program that a text field stands for: none where it is empty.
pub fn custom_make_from_text(text: String) -> (make: Option<String>)
    ensures
        text@.len() == 0 ==> make is None,
        text@.len() > 0 ==> make == Some(text),
{
    if text.as_str().unicode_len() == 0 {
        None
    } else {
        Some(text)
    }
}

/// The lower-case form of an ASCII letter, and any other character as it is.
pub open spec fn lowered_char(c: char) -> char {
    if 'A' <= c && c <= 'Z' {
        ((c as u8) + 32) as char
    } else {
        c
    }
}

/// A text with its ASCII letters in lower case.
pub open spec fn lowered(text: Seq<char>) -> Seq<char> {
    Seq::new(text.len(), |k: int| lowered_char(text[k]))
}

/// `part` stands somewhere in `text`.
pub open spec fn occurs_in(part: Seq<char>, text: Seq<char>) -> bool {
    exists|i: int| 0 <= i <= text.len() - part.len() && #[trigger] text.subrange(i, i + part.len()) == part
}

/// `str::to_ascii_lowercase` of the standard library: the letters `A` to `Z`
/// are mapped to `a` to `z`, every other character stays as it is.
#[verifier::external_body]
fn ascii_lowercase(text: &String) -> (lower: String)
    ensures
        lower@ == lowered(text@),
{
    text.to_ascii_lowercase()
}

/// `str::contains` of the standard library with a string as the pattern:
/// whether the pattern is a part of the text.
#[verifier::external_body]
fn has_part(text: &String, part: &String) -> (found: bool)
    ensures
        found == occurs_in(part@, text@),
{
    text.contains(part.as_str())
}

/// Whether the node is the object at `path` or holds it.
pub open spec fn view_contains(node: NodeView, path: Seq<char>) -> bool
    decreases node,
{
    match node {
        NodeView::File(_, unit) => unit.path == path,
        NodeView::Dir(_, children) => any_contains(children, path, 0),
    }
}

/// Whether a node of the list from `from` on is the object at `path` or
/// holds it.
pub open spec fn any_contains(nodes: Seq<NodeView>, path: Seq<char>, from: int) -> bool
    decreases nodes, nodes.len() - from,
{
    if 0 <= from < nodes.len() {
        view_contains(nodes[from], path) || any_contains(nodes, path, from + 1)
    } else {
        false
    }
}

/// What the search for `search` keeps of a node: all of it where its name
/// holds the search text, whatever the case of the name; of a directory
/// else what the search keeps of its children, and nothing where that is
/// nothing.
pub open spec fn filter_view(node: NodeView, search: Seq<char>) -> Option<NodeView>
    decreases node,
{
    match node {
        NodeView::File(name, _) => if occurs_in(search, lowered(name)) {
            Some(node)
        } else {
            None
        },
        NodeView::Dir(name, children) => if occurs_in(search, lowered(name)) {
            Some(node)
        } else if filter_views(children, search, 0).len() > 0 {
            Some(NodeView::Dir(name, filter_views(children, search, 0)))
        } else {
            None
        },
    }
}

/// What the search keeps of the nodes of a list from `from` on, in order.
pub open spec fn filter_views(nodes: Seq<NodeView>, search: Seq<char>, from: int) -> Seq<NodeView>
    decreases nodes, nodes.len() - from,
{
    if 0 <= from < nodes.len() {
        match filter_view(nodes[from], search) {
            Some(kept) => seq![kept] + filter_views(nodes, search, from + 1),
            None => filter_views(nodes, search, from + 1),
        }
    } else {
        Seq::empty()
    }
}

/// The empty text stands in every text.
pub proof fn lemma_occurs_empty(text: Seq<char>)
    ensures
        occurs_in(Seq::empty(), text),
{
    let none = Seq::<char>::empty();
    assert(text.subrange(0int, 0int + none.len()) =~= none);
}

/// A search for the empty text keeps every node as it is.
pub proof fn lemma_filter_empty(node: NodeView)
    ensures
        filter_view(node, Seq::empty()) == Some(node),
{
    match node {
        NodeView::File(name, _) => lemma_occurs_empty(lowered(name)),
        NodeView::Dir(name, _) => lemma_occurs_empty(lowered(name)),
    }
}

/// What a search keeps of a list behind one more node is what it keeps of
/// the list.
pub proof fn lemma_filter_views_shift(head: NodeView, rest: Seq<NodeView>, search: Seq<char>, k: int)
    requires
        0 <= k,
    ensures
        filter_views(seq![head] + rest, search, k + 1) == filter_views(rest, search, k),
    decreases rest.len() - k,
{
    let all = seq![head] + rest;
    if k < rest.len() {
        assert(all[k + 1] == rest[k]);
        lemma_filter_views_shift(head, rest, search, k + 1);
    }
}

/// A second search for the same text keeps all that the first search kept.
pub proof fn lemma_filter_again(node: NodeView, search: Seq<char>)
    ensures
        filter_view(node, search) matches Some(kept) ==> filter_view(kept, search) == Some(kept),
    decreases node,
{
    match node {
        NodeView::File(_, _) => {},
        NodeView::Dir(name, children) => {
            if !occurs_in(search, lowered(name)) {
                lemma_filter_views_again(children, search, 0);
            }
        },
    }
}

/// A second search for the same text keeps all that the first search kept
/// of a list.
pub proof fn lemma_filter_views_again(nodes: Seq<NodeView>, search: Seq<char>, from: int)
    requires
        0 <= from,
    ensures
        filter_views(filter_views(nodes, search, from), search, 0) == filter_views(
            nodes,
            search,
            from,
        ),
    decreases nodes, nodes.len() - from,
{
    if from < nodes.len() {
        lemma_filter_views_again(nodes, search, from + 1);
        let rest = filter_views(nodes, search, from + 1);
        match filter_view(nodes[from], search) {
            Some(kept) => {
                lemma_filter_again(nodes[from], search);
                lemma_filter_views_shift(kept, rest, search, 0);
                let all = seq![kept] + rest;
                assert(all[0] == kept);
                assert(filter_views(all, search, 0) == seq![kept] + filter_views(all, search, 1));
            },
            None => {},
        }
    }
}

/// `part` is `whole` with some of what lies below it left out: the names
/// from the root down are the same, every file is a file of `whole` with
/// its object unchanged, and the order is kept.
pub open spec fn is_part_of(part: NodeView, whole: NodeView) -> bool
    decreases whole,
{
    match whole {
        NodeView::File(_, _) => part == whole,
        NodeView::Dir(name, children) => part == whole || (part matches NodeView::Dir(
            own,
            kept,
        ) && own == name && parts_of(kept, 0, children, 0)),
    }
}

/// The nodes of `kept` from `k` on are parts of nodes of `nodes` from
/// `from` on, in the same order.
pub open spec fn parts_of(kept: Seq<NodeView>, k: int, nodes: Seq<NodeView>, from: int) -> bool
    decreases nodes, nodes.len() - from,
{
    if k < 0 || from < 0 {
        false
    } else if k >= kept.len() {
        true
    } else if from >= nodes.len() {
        false
    } else {
        (is_part_of(kept[k], nodes[from]) && parts_of(kept, k + 1, nodes, from + 1)) || parts_of(
            kept,
            k,
            nodes,
            from + 1,
        )
    }
}

/// Parts of a list stay parts of it behind one more node at their front.
pub proof fn lemma_parts_shift(
    head: NodeView,
    kept: Seq<NodeView>,
    k: int,
    nodes: Seq<NodeView>,
    from: int,
)
    requires
        0 <= k,
        0 <= from,
        parts_of(kept, k, nodes, from),
    ensures
        parts_of(seq![head] + kept, k + 1, nodes, from),
    decreases nodes.len() - from,
{
    let all = seq![head] + kept;
    if k < kept.len() {
        assert(all[k + 1] == kept[k]);
        if from < nodes.len() {
            if is_part_of(kept[k], nodes[from]) && parts_of(kept, k + 1, nodes, from + 1) {
                lemma_parts_shift(head, kept, k + 1, nodes, from + 1);
            } else {
                lemma_parts_shift(head, kept, k, nodes, from + 1);
            }
        }
    }
}

/// What a search keeps of a node is a part of the node.
pub proof fn lemma_filter_part(node: NodeView, search: Seq<char>)
    ensures
        filter_view(node, search) matches Some(kept) ==> is_part_of(kept, node),
    decreases node,
{
    match node {
        NodeView::File(_, _) => {},
        NodeView::Dir(name, children) => {
            lemma_filter_views_part(children, search, 0);
        },
    }
}

/// What a search keeps of a list are parts of the nodes of the list, in order.
pub proof fn lemma_filter_views_part(nodes: Seq<NodeView>, search: Seq<char>, from: int)
    requires
        0 <= from,
    ensures
        parts_of(filter_views(nodes, search, from), 0, nodes, from),
    decreases nodes, nodes.len() - from,
{
    if from < nodes.len() {
        lemma_filter_views_part(nodes, search, from + 1);
        let rest = filter_views(nodes, search, from + 1);
        match filter_view(nodes[from], search) {
            Some(kept) => {
                lemma_filter_part(nodes[from], search);
                lemma_parts_shift(kept, rest, 0, nodes, from + 1);
                assert((seq![kept] + rest)[0] == kept);
            },
            None => {},
        }
    }
}

/// Whether the node is the object at `path` or holds it.
#[verifier::loop_isolation(false)]
pub fn contains_node(node: &ProjectUnitNode, path: &String) -> (found: bool)
    ensures
        found == view_contains(node.view(), path@),
    decreases node,
{
    match node {
        ProjectUnitNode::File(_, unit) => unit.path == *path,
        ProjectUnitNode::Dir(_, children) => {
            let ghost views = node_views(children@, 0);
            proof {
                lemma_node_views(children@, 0);
            }
            let mut k: usize = 0;
            while k < children.len()
                invariant
                    k <= children.len(),
                    any_contains(views, path@, 0) == any_contains(views, path@, k as int),
                decreases children.len() - k,
            {
                if contains_node(&children[k], path) {
                    return true;
                }
                k = k + 1;
            }
            false
        },
    }
}

/// What the search for `search` keeps of the node. The search text is taken
/// as it is, the names of the nodes in lower case. A node that is kept is
/// kept with its name and, where it is a file, with all of its object; of a
/// directory whose own name does not match, the children that the search
/// keeps stay in their order. An empty search keeps everything, and a
/// second search for the same text keeps all of the result.
#[verifier::loop_isolation(false)]
pub fn filter_node(node: &ProjectUnitNode, search: &String) -> (kept: Option<ProjectUnitNode>)
    ensures
        match kept {
            Some(found) => filter_view(node.view(), search@) == Some(found.view()),
            None => filter_view(node.view(), search@) is None,
        },
        kept matches Some(found) ==> is_part_of(found.view(), node.view()),
        kept matches Some(found) ==> filter_view(found.view(), search@) == Some(found.view()),
        search@.len() == 0 ==> (kept matches Some(found) && found.view() == node.view()),
    decreases node,
{
    proof {
        lemma_filter_part(node.view(), search@);
        lemma_filter_again(node.view(), search@);
        if search@.len() == 0 {
            assert(search@ =~= Seq::<char>::empty());
            lemma_filter_empty(node.view());
        }
    }
    match node {
        ProjectUnitNode::File(name, _) => {
            if has_part(&ascii_lowercase(name), search) {
                Some(copy_node(node))
            } else {
                None
            }
        },
        ProjectUnitNode::Dir(name, children) => {
            if has_part(&ascii_lowercase(name), search) {
                return Some(copy_node(node));
            }
            let ghost views = node_views(children@, 0);
            proof {
                lemma_node_views(children@, 0);
            }
            let mut found: Vec<ProjectUnitNode> = Vec::new();
            let mut k: usize = 0;
            proof {
                assert(node_views(found@, 0) + filter_views(views, search@, 0) =~= filter_views(
                    views,
                    search@,
                    0,
                ));
            }
            while k < children.len()
                invariant
                    k <= children.len(),
                    node_views(found@, 0) + filter_views(views, search@, k as int) == filter_views(
                        views,
                        search@,
                        0,
                    ),
                decreases children.len() - k,
            {
                let ghost before = found@;
                let ghost rest = filter_views(views, search@, k as int);
                match filter_node(&children[k], search) {
                    Some(child) => {
                        found.push(child);
                        proof {
                            lemma_node_views(before, 0);
                            lemma_node_views(found@, 0);
                            assert(node_views(found@, 0) =~= node_views(before, 0).push(
                                child.view(),
                            ));
                            assert(node_views(found@, 0) + filter_views(views, search@, k + 1)
                                =~= node_views(before, 0) + rest);
                        }
                    },
                    None => {},
                }
                k = k + 1;
            }
            proof {
                assert(node_views(found@, 0) + Seq::<NodeView>::empty() =~= node_views(found@, 0));
                lemma_node_views(found@, 0);
            }
            if found.len() > 0 {
                Some(ProjectUnitNode::Dir(name.clone(), found))
            } else {
                None
            }
        },
    }
}

/// What the search keeps of a list of nodes, in order.
pub fn filter_nodes(nodes: &Vec<ProjectUnitNode>, search: &String) -> (kept: Vec<ProjectUnitNode>)
    ensures
        node_views(kept@, 0) == filter_views(node_views(nodes@, 0), search@, 0),
{
    let ghost views = node_views(nodes@, 0);
    proof {
        lemma_node_views(nodes@, 0);
    }
    let mut found: Vec<ProjectUnitNode> = Vec::new();
    let mut k: usize = 0;
    proof {
        assert(node_views(found@, 0) + filter_views(views, search@, 0) =~= filter_views(
            views,
            search@,
            0,
        ));
    }
    while k < nodes.len()
        invariant
            k <= nodes.len(),
            views == node_views(nodes@, 0),
            views.len() == nodes.len(),
            forall|t: int| 0 <= t < nodes.len() ==> #[trigger] views[t] == nodes@[t].view(),
            node_views(found@, 0) + filter_views(views, search@, k as int) == filter_views(
                views,
                search@,
                0,
            ),
        decreases nodes.len() - k,
    {
        let ghost before = found@;
        let ghost rest = filter_views(views, search@, k as int);
        match filter_node(&nodes[k], search) {
            Some(child) => {
                found.push(child);
                proof {
                    lemma_node_views(before, 0);
                    lemma_node_views(found@, 0);
                    assert(node_views(found@, 0) =~= node_views(before, 0).push(child.view()));
                    assert(node_views(found@, 0) + filter_views(views, search@, k + 1)
                        =~= node_views(before, 0) + rest);
                }
            },
            None => {},
        }
        k = k + 1;
    }
    proof {
        assert(node_views(found@, 0) + Seq::<NodeView>::empty() =~= node_views(found@, 0));
    }
    found
}

/// What the search for the text of the search field keeps of a list of
/// nodes: the text is compared in lower case with the names in lower case.
pub fn search_nodes(nodes: &Vec<ProjectUnitNode>, unit_search: &String) -> (kept: Vec<ProjectUnitNode>)
    ensures
        node_views(kept@, 0) == filter_views(node_views(nodes@, 0), lowered(unit_search@), 0),
{
    let search = ascii_lowercase(unit_search);
    filter_nodes(nodes, &search)
}

/// The file patterns that are watched where the user has chosen none.
pub open spec fn default_patterns() -> Seq<Seq<char>> {
    seq![
        "*.c"@,
        "*.cp"@,
        "*.cpp"@,
        "*.cxx"@,
        "*.h"@,
        "*.hp"@,
        "*.hpp"@,
        "*.hxx"@,
        "*.s"@,
        "*.S"@,
        "*.asm"@,
        "*.inc"@,
        "*.py"@,
        "*.yml"@,
        "*.txt"@,
        "*.json"@,
    ]
}

/// The file patterns that are watched where the user has chosen none.
pub fn default_watch_patterns() -> (patterns: Vec<String>)
    ensures
        text_views(patterns@) == default_patterns(),
{
    let mut patterns: Vec<String> = Vec::new();
    patterns.push(String::from_str("*.c"));
    patterns.push(String::from_str("*.cp"));
    patterns.push(String::from_str("*.cpp"));
    patterns.push(String::from_str("*.cxx"));
    patterns.push(String::from_str("*.h"));
    patterns.push(String::from_str("*.hp"));
    patterns.push(String::from_str("*.hpp"));
    patterns.push(String::from_str("*.hxx"));
    patterns.push(String::from_str("*.s"));
    patterns.push(String::from_str("*.S"));
    patterns.push(String::from_str("*.asm"));
    patterns.push(String::from_str("*.inc"));
    patterns.push(String::from_str("*.py"));
    patterns.push(String::from_str("*.yml"));
    patterns.push(String::from_str("*.txt"));
    patterns.push(String::from_str("*.json"));
    proof {
        assert(text_views(patterns@) =~= default_patterns());
    }
    patterns
}

/// `globset::Glob::new`: the parser of file patterns. Whether a backslash
/// escapes depends on the platform, so the verdict on a text is not the
/// same everywhere, and nothing is said of it.
#[verifier::external_body]
fn glob_is_valid(text: &String) -> (valid: bool) {
    globset::Glob::new(text.as_str()).is_ok()
}

/// Puts the default file patterns in place of the watched ones and tells
/// the watcher of the change.
pub fn reset_watch_patterns(config: &mut AppConfig)
    ensures
        text_views(final(config).watch_patterns@) == default_patterns(),
        final(config).watcher_change,
        *final(config) == (AppConfig {
            watch_patterns: final(config).watch_patterns,
            watcher_change: true,
            ..*old(config)
        }),
{
    config.watch_patterns = default_watch_patterns();
    config.watcher_change = true;
}

/// Takes the pattern at `remove_at`, if one is named, out of the watched
/// patterns and tells the watcher of the change.
pub fn remove_watch_pattern(config: &mut AppConfig, remove_at: Option<usize>)
    requires
        remove_at matches Some(idx) ==> idx < old(config).watch_patterns@.len(),
    ensures
        remove_at is None ==> *final(config) == *old(config),
        remove_at matches Some(idx) ==> final(config).watch_patterns@ == old(
            config,
        ).watch_patterns@.remove(idx as int) && *final(config) == (AppConfig {
            watch_patterns: final(config).watch_patterns,
            watcher_change: true,
            ..*old(config)
        }),
{
    match remove_at {
        Some(idx) => {
            let _ = config.watch_patterns.remove(idx);
            config.watcher_change = true;
        },
        None => {},
    }
}

/// Adds the text of the pattern field to the watched patterns where the
/// parser has accepted it: the field is then emptied and the watcher told
/// of the change. A text that was not accepted changes nothing.
pub fn add_watch_pattern(config: &mut AppConfig, text: &mut String, valid: bool)
    ensures
        !valid ==> *final(config) == *old(config) && *final(text) == *old(text),
        valid ==> final(config).watch_patterns@ == old(config).watch_patterns@.push(*old(text))
            && final(text)@.len() == 0 && *final(config) == (AppConfig {
            watch_patterns: final(config).watch_patterns,
            watcher_change: true,
            ..*old(config)
        }),
{
    if valid {
        let mut taken = String::new();
        core::mem::swap(&mut taken, text);
        config.watch_patterns.push(taken);
        config.watcher_change = true;
    }
}

/// Adds the text of the pattern field to the watched patterns if it is a
/// file pattern that the parser accepts, and says whether it did. Whatever
/// the parser says, either nothing changes or the text is added as it is.
pub fn try_add_watch_pattern(config: &mut AppConfig, text: &mut String) -> (added: bool)
    ensures
        !added ==> *final(config) == *old(config) && *final(text) == *old(text),
        added ==> final(config).watch_patterns@ == old(config).watch_patterns@.push(*old(text))
            && final(text)@.len() == 0 && *final(config) == (AppConfig {
            watch_patterns: final(config).watch_patterns,
            watcher_change: true,
            ..*old(config)
        }),
{
    let valid = glob_is_valid(text);
    add_watch_pattern(config, text, valid);
    valid
}

/// Why the output of a command could not be read as text.
#[derive(Clone, Copy, Debug, PartialEq, Eq, Structural)]
pub enum TextError {
    /// The output is not valid UTF-16.
    InvalidUtf16,
}

/// The text that a sequence of UTF-16 units encodes, and nothing where the
/// sequence is not valid UTF-16.
pub uninterp spec fn utf16_text(units: Seq<u16>) -> Option<Seq<char>>;

/// `String::from_utf16` of the standard library. The contract names the
/// text that the units decode to, which depends on the units alone.
#[verifier::external_body]
fn decode_utf16(units: &Vec<u16>) -> (text: Option<String>)
    ensures
        match text {
            Some(decoded) => utf16_text(units@) == Some(decoded@),
            None => utf16_text(units@) is None,
        },
{
    String::from_utf16(units).ok()
}

/// `u16::from_ne_bytes` of the standard library: the unit that two bytes
/// make in the byte order of the machine, which is one of the two orders.
#[verifier::external_body]
fn native_unit(first: u8, second: u8) -> (unit: u16)
    ensures
        is_unit_of(first, second, unit),
{
    u16::from_ne_bytes([first, second])
}

/// `unit` is made of the two bytes, in one byte order or the other.
pub open spec fn is_unit_of(first: u8, second: u8, unit: u16) -> bool {
    unit == first + 256 * second || unit == second + 256 * first
}

/// The unit that two bytes make in the given byte order.
pub open spec fn unit_in(first: u8, second: u8, little_endian: bool) -> u16 {
    if little_endian {
        (first + 256 * second) as u16
    } else {
        (second + 256 * first) as u16
    }
}

/// The units that the bytes hold in the given byte order: one unit for
/// every full pair of bytes, in order; a last byte without a partner is
/// left out.
pub open spec fn units_in(bytes: Seq<u8>, little_endian: bool) -> Seq<u16> {
    Seq::new(
        (bytes.len() / 2) as nat,
        |k: int| unit_in(bytes[2 * k], bytes[2 * k + 1], little_endian),
    )
}

/// Whether the machine puts the low byte of a unit first.
pub fn native_is_little() -> bool {
    native_unit(1, 0) == 1
}

/// The UTF-16 units that the bytes hold in the given byte order.
pub fn utf16_units(bytes: &[u8], little_endian: bool) -> (units: Vec<u16>)
    ensures
        units@ == units_in(bytes@, little_endian),
{
    let count = bytes.len() / 2;
    let mut units: Vec<u16> = Vec::new();
    let mut k: usize = 0;
    while k < count
        invariant
            k <= count,
            count == bytes.len() / 2,
            units.len() == k,
            forall|t: int|
                0 <= t < k ==> #[trigger] units@[t] == unit_in(
                    bytes[2 * t],
                    bytes[2 * t + 1],
                    little_endian,
                ),
        decreases count - k,
    {
        let first = bytes[2 * k];
        let second = bytes[2 * k + 1];
        let unit: u16 = if little_endian {
            (first as u16) + 256 * (second as u16)
        } else {
            (second as u16) + 256 * (first as u16)
        };
        units.push(unit);
        k = k + 1;
    }
    proof {
        assert(units@ =~= units_in(bytes@, little_endian));
    }
    units
}

/// The text of a sequence of UTF-16 units.
pub fn text_from_units(units: &Vec<u16>) -> (r: Result<String, TextError>)
    ensures
        match r {
            Ok(text) => utf16_text(units@) == Some(text@),
            Err(e) => e == TextError::InvalidUtf16 && utf16_text(units@) is None,
        },
{
    match decode_utf16(units) {
        Some(text) => Ok(text),
        None => Err(TextError::InvalidUtf16),
    }
}

/// `r` is what the bytes read as in the given byte order: the text that
/// their units decode to, or the error where they decode to none.
pub open spec fn reads_as(bytes: Seq<u8>, little_endian: bool, r: Result<String, TextError>) -> bool {
    match r {
        Ok(text) => utf16_text(units_in(bytes, little_endian)) == Some(text@),
        Err(e) => e == TextError::InvalidUtf16 && utf16_text(units_in(bytes, little_endian))
            is None,
    }
}

/// Reads text from bytes that hold UTF-16 in the given byte order.
pub fn text_from_bytes(bytes: &[u8], little_endian: bool) -> (r: Result<String, TextError>)
    ensures
        reads_as(bytes@, little_endian, r),
{
    let units = utf16_units(bytes, little_endian);
    text_from_units(&units)
}

/// Reads the output of a command that writes UTF-16: the bytes are paired
/// into units in the byte order of the machine, one order for all of them,
/// and the units decoded.
pub fn process_utf16(bytes: &[u8]) -> (r: Result<String, TextError>)
    ensures
        reads_as(bytes@, true, r) || reads_as(bytes@, false, r),
{
    text_from_bytes(bytes, native_is_little())
}

/// The characters that count as white space: those that Unicode gives the
/// property `White_Space`.
pub open spec fn white_space(c: char) -> bool {
    let v = c as u32;
    (0x09 <= v && v <= 0x0D) || v == 0x20 || v == 0x85 || v == 0xA0 || v == 0x1680 || (0x2000 <= v
        && v <= 0x200A) || v == 0x2028 || v == 0x2029 || v == 0x202F || v == 0x205F || v == 0x3000
}

/// `char::is_whitespace` of the standard library: whether the character has
/// the property `White_Space`.
#[verifier::external_body]
fn is_white(c: char) -> (white: bool)
    ensures
        white == white_space(c),
{
    c.is_whitespace()
}

/// Where the line that starts at `from` ends: at the next line feed, or at
/// the end of the text.
pub open spec fn line_end(text: Seq<char>, from: int) -> int
    decreases text.len() - from,
{
    if from < 0 || from >= text.len() {
        text.len() as int
    } else if text[from] == '\n' {
        from
    } else {
        line_end(text, from + 1)
    }
}

/// The first position from `from` on and before `to` that holds no white
/// space, and `to` where there is none.
pub open spec fn skip_white(text: Seq<char>, from: int, to: int) -> int
    decreases to - from,
{
    if from < 0 || from >= to || to > text.len() {
        to
    } else if white_space(text[from]) {
        skip_white(text, from + 1, to)
    } else {
        from
    }
}

/// The position behind the last character before `to` and not before
/// `from` that is no white space, and `from` where there is none.
pub open spec fn trim_end(text: Seq<char>, from: int, to: int) -> int
    decreases to - from,
{
    if from < 0 || from >= to || to > text.len() {
        from
    } else if white_space(text[to - 1]) {
        trim_end(text, from, to - 1)
    } else {
        to
    }
}

/// The names that the text lists from `from` on: one to a line, without the
/// white space around it, and without the lines that hold nothing else.
pub open spec fn distros_from(text: Seq<char>, from: int) -> Seq<Seq<char>>
    decreases text.len() - from,
{
    if from < 0 || from > text.len() {
        Seq::empty()
    } else {
        let end = line_end(text, from);
        let start = skip_white(text, from, end);
        let stop = trim_end(text, start, end);
        let rest = if from <= end < text.len() {
            distros_from(text, end + 1)
        } else {
            Seq::empty()
        };
        if 0 <= start < stop <= text.len() {
            seq![text.subrange(start, stop)] + rest
        } else {
            rest
        }
    }
}

/// Reads the list of Linux distributions from the output of the command
/// that lists them: one name to a line; white space around a name and
/// lines without a name are dropped.
pub fn parse_distros(stdout: &String) -> (names: Vec<String>)
    ensures
        text_views(names@) == distros_from(stdout@, 0),
{
    let text = stdout.as_str();
    let len = text.unicode_len();
    let mut names: Vec<String> = Vec::new();
    let mut from: usize = 0;
    let mut done = false;
    proof {
        assert(text_views(names@) + distros_from(stdout@, 0) =~= distros_from(stdout@, 0));
    }
    while !done
        invariant
            text@ == stdout@,
            len == stdout@.len(),
            from <= len,
            done ==> text_views(names@) == distros_from(stdout@, 0),
            !done ==> text_views(names@) + distros_from(stdout@, from as int) == distros_from(
                stdout@,
                0,
            ),
        decreases len - from + if done { 0int } else { 1int },
    {
        let ghost before = text_views(names@);
        let ghost all = distros_from(stdout@, from as int);
        let mut end = from;
        while end < len && text.get_char(end) != '\n'
            invariant
                text@ == stdout@,
                len == stdout@.len(),
                from <= end <= len,
                line_end(stdout@, end as int) == line_end(stdout@, from as int),
            decreases len - end,
        {
            end = end + 1;
        }
        let mut start = from;
        while start < end && is_white(text.get_char(start))
            invariant
                text@ == stdout@,
                len == stdout@.len(),
                from <= start <= end <= len,
                skip_white(stdout@, start as int, end as int) == skip_white(
                    stdout@,
                    from as int,
                    end as int,
                ),
            decreases end - start,
        {
            start = start + 1;
        }
        let mut stop = end;
        while start < stop && is_white(text.get_char(stop - 1))
            invariant
                text@ == stdout@,
                len == stdout@.len(),
                start <= stop <= end <= len,
                trim_end(stdout@, start as int, stop as int) == trim_end(
                    stdout@,
                    start as int,
                    end as int,
                ),
            decreases stop - start,
        {
            stop = stop - 1;
        }
        if start < stop {
            names.push(String::from_str(text.substring_char(start, stop)));
            proof {
                assert(text_views(names@) =~= before.push(stdout@.subrange(start as int, stop as int)));
            }
        }
        if end < len {
            proof {
                assert(text_views(names@) + distros_from(stdout@, end + 1) =~= before + all);
            }
            from = end + 1;
        } else {
            proof {
                assert(text_views(names@) =~= before + all);
            }
            done = true;
        }
    }
    names
}

/// What is left of a directory when the home directory is taken from its
/// front: nothing where no home directory is known, and nothing where the
/// directory does not lie in it.
pub fn home_rel(dir: &String, home: &Option<String>) -> (rest: Option<String>)
    ensures
        home is None ==> rest is None,
{
    match home {
        Some(base) => strip_prefix(dir, base),
        None => None,
    }
}

/// The object that a picked file stands for: the file relative to the base
/// directory where it lies there, else relative to the target directory
/// where it lies there, else none.
pub fn picked_object(base_rest: Option<String>, target_rest: Option<String>) -> (obj: Option<String>)
    ensures
        obj == (if base_rest is Some {
            base_rest
        } else {
            target_rest
        }),
{
    match base_rest {
        Some(rest) => Some(rest),
        None => target_rest,
    }
}

/// The object that the file at `path` stands for: the base directory is
/// tried before the target directory.
pub fn object_in_dirs(path: &String, base_dir: &String, target_dir: &String) -> (obj: Option<String>) {
    let base_rest = strip_prefix(path, base_dir);
    let target_rest = strip_prefix(path, target_dir);
    picked_object(base_rest, target_rest)
}

} // verus!
