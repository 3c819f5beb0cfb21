//! The settings of a project: where it lies, what is built and diffed, and
//! the tree of its objects.

use crate::diff::DiffAlg;
use crate::text::copy_text;
use vstd::prelude::*;

verus! {

/// An object of the project.
#[derive(Clone, Debug, PartialEq, Eq)]
pub struct ProjectUnit {
    pub name: Option<String>,
    pub path: String,
    pub reverse_fn_order: Option<bool>,
}

/// A node of the tree of the project's objects.
#[derive(Debug, PartialEq, Eq)]
pub enum ProjectUnitNode {
    /// An object, under the name it is shown by.
    File(String, ProjectUnit),
    /// A directory with what lies in it.
    Dir(String, Vec<ProjectUnitNode>),
}

/// The object that is selected for the diff.
#[derive(Clone, Debug, PartialEq, Eq)]
pub struct ObjectConfig {
    pub name: String,
    pub target_path: Option<String>,
    pub base_path: Option<String>,
    pub reverse_fn_order: Option<bool>,
}

/// The settings of the application.
#[derive(Clone, Debug, PartialEq, Eq)]
pub struct AppConfig {
    pub custom_make: Option<String>,
    pub selected_wsl_distro: Option<String>,
    pub project_dir: Option<String>,
    pub target_obj_dir: Option<String>,
    pub base_obj_dir: Option<String>,
    pub obj_path: Option<String>,
    pub selected_obj: Option<ObjectConfig>,
    pub build_base: bool,
    pub build_target: bool,
    pub watcher_change: bool,
    pub watcher_enabled: bool,
    pub auto_update_check: bool,
    pub obj_change: bool,
    pub watch_patterns: Vec<String>,
    pub code_alg: DiffAlg,
    pub data_alg: DiffAlg,
    pub relax_reloc_diffs: bool,
    pub units: Vec<ProjectUnit>,
    pub unit_nodes: Vec<ProjectUnitNode>,
}

/// An object of the project as the contracts see it: all of its fields,
/// the texts as sequences of characters.
pub struct UnitView {
    pub name: Option<Seq<char>>,
    pub path: Seq<char>,
    pub reverse_fn_order: Option<bool>,
}

/// A node as the contracts see it: a file with its name and all of its
/// object, a directory with its name and its children in order.
pub enum NodeView {
    File(Seq<char>, UnitView),
    Dir(Seq<char>, Seq<NodeView>),
}

impl ProjectUnit {
    /// The object as the contracts see it.
    pub open spec fn view(self) -> UnitView {
        UnitView {
            name: match self.name {
                Some(name) => Some(name@),
                None => None,
            },
            path: self.path@,
            reverse_fn_order: self.reverse_fn_order,
        }
    }

    /// A copy of the object.
    pub fn copy(&self) -> (copy: ProjectUnit)
        ensures
            copy == *self,
            copy.view() == self.view(),
    {
        ProjectUnit {
            name: copy_text(&self.name),
            path: self.path.clone(),
            reverse_fn_order: self.reverse_fn_order,
        }
    }
}

impl ProjectUnitNode {
    /// The node as the contracts see it.
    pub open spec fn view(self) -> NodeView
        decreases self,
    {
        match self {
            ProjectUnitNode::File(name, unit) => NodeView::File(name@, unit.view()),
            ProjectUnitNode::Dir(name, children) => NodeView::Dir(name@, node_views(children@, 0)),
        }
    }
}

/// The views of the nodes of a list from `from` on.
pub open spec fn node_views(nodes: Seq<ProjectUnitNode>, from: int) -> Seq<NodeView>
    decreases nodes, nodes.len() - from,
{
    if 0 <= from < nodes.len() {
        seq![nodes[from].view()] + node_views(nodes, from + 1)
    } else {
        Seq::empty()
    }
}

/// The views of a list of nodes are the views of its nodes, one for one.
pub proof fn lemma_node_views(nodes: Seq<ProjectUnitNode>, from: int)
    requires
        0 <= from <= nodes.len(),
    ensures
        node_views(nodes, from).len() == nodes.len() - from,
        forall|k: int|
            0 <= k < nodes.len() - from ==> #[trigger] node_views(nodes, from)[k] == nodes[from
                + k].view(),
    decreases nodes.len() - from,
{
    if from < nodes.len() {
        lemma_node_views(nodes, from + 1);
        let all = node_views(nodes, from);
        let rest = node_views(nodes, from + 1);
        assert forall|k: int| 0 <= k < nodes.len() - from implies #[trigger] all[k] == nodes[from
            + k].view() by {
            if k > 0 {
                assert(all[k] == rest[k - 1]);
            }
        }
    }
}

/// A copy of a node with all that lies below it: every name, every object
/// with all of its fields, and every directory with its children in order.
#[verifier::loop_isolation(false)]
pub fn copy_node(node: &ProjectUnitNode) -> (copy: ProjectUnitNode)
    ensures
        copy.view() == node.view(),
    decreases node,
{
    match node {
        ProjectUnitNode::File(name, unit) => ProjectUnitNode::File(name.clone(), unit.copy()),
        ProjectUnitNode::Dir(name, children) => {
            let mut copies: Vec<ProjectUnitNode> = Vec::new();
            let mut k: usize = 0;
            while k < children.len()
                invariant
                    k <= children.len(),
                    copies.len() == k,
                    forall|t: int| 0 <= t < k ==> (#[trigger] copies@[t]).view() == children@[t].view(),
                decreases children.len() - k,
            {
                copies.push(copy_node(&children[k]));
                k = k + 1;
            }
            proof {
                lemma_node_views(children@, 0);
                lemma_node_views(copies@, 0);
                assert(node_views(copies@, 0) =~= node_views(children@, 0));
            }
            ProjectUnitNode::Dir(name.clone(), copies)
        },
    }
}

impl Clone for ProjectUnitNode {
    fn clone(&self) -> (copy: ProjectUnitNode)
        ensures
            copy.view() == self.view(),
    {
        copy_node(self)
    }
}

impl ObjectConfig {
    /// A copy of the selected object.
    pub fn copy(&self) -> (copy: ObjectConfig)
        ensures
            copy == *self,
    {
        ObjectConfig {
            name: self.name.clone(),
            target_path: copy_text(&self.target_path),
            base_path: copy_text(&self.base_path),
            reverse_fn_order: self.reverse_fn_order,
        }
    }
}

/// A copy of the selection.
pub fn copy_selection(selected: &Option<ObjectConfig>) -> (copy: Option<ObjectConfig>)
    ensures
        copy == *selected,
{
    match selected {
        Some(obj) => Some(obj.copy()),
        None => None,
    }
}

impl AppConfig {
    /// Selects the object at `path` and notes that the selection changed, so
    /// that it is built and diffed anew.
    pub fn set_obj_path(&mut self, path: String)
        ensures
            *final(self) == (AppConfig { obj_path: Some(path), obj_change: true, ..*old(self) }),
    {
        self.obj_path = Some(path);
        self.obj_change = true;
    }

    /// Moves the project to `path`. What was chosen within the old project
    /// directory is forgotten, and the watcher is told of the change.
    pub fn set_project_dir(&mut self, path: String)
        ensures
            *final(self) == (AppConfig {
                project_dir: Some(path),
                target_obj_dir: None,
                base_obj_dir: None,
                obj_path: None,
                selected_obj: None,
                obj_change: true,
                watcher_change: true,
                ..*old(self)
            }),
    {
        self.project_dir = Some(path);
        self.target_obj_dir = None;
        self.base_obj_dir = None;
        self.obj_path = None;
        self.selected_obj = None;
        self.obj_change = true;
        self.watcher_change = true;
    }

    /// Sets the directory of the target objects and drops the selection.
    pub fn set_target_obj_dir(&mut self, path: String)
        ensures
            *final(self) == (AppConfig {
                target_obj_dir: Some(path),
                obj_path: None,
                selected_obj: None,
                obj_change: true,
                ..*old(self)
            }),
    {
        self.target_obj_dir = Some(path);
        self.obj_path = None;
        self.selected_obj = None;
        self.obj_change = true;
    }

    /// Sets the directory of the base objects and drops the selection.
    pub fn set_base_obj_dir(&mut self, path: String)
        ensures
            *final(self) == (AppConfig {
                base_obj_dir: Some(path),
                obj_path: None,
                selected_obj: None,
                obj_change: true,
                ..*old(self)
            }),
    {
        self.base_obj_dir = Some(path);
        self.obj_path = None;
        self.selected_obj = None;
        self.obj_change = true;
    }
}

} // verus!
