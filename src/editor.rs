//! Plain data shared with the editor layer: editor size classes and
//! responses, editor settings, documentation selection, project
//! configuration, and the node factory registry.

use crate::node::{GraphNode, ListNode};
use crate::types::ETypeId;
use vstd::prelude::*;

verus! {

/// Upper bound on the space an editor takes. An editor may take less than
/// its size says, never more.
#[derive(Debug, Clone, Copy, PartialEq, Eq, Structural, PartialOrd, Ord)]
pub enum EditorSize {
    /// Takes no space.
    Empty,
    /// Fits within a line, beside other content.
    Inline,
    /// May take a whole line.
    SingleLine,
    /// May take more than one line.
    Block,
}

impl EditorSize {
    pub fn is_inline(&self) -> (r: bool)
        ensures
            r == (*self == EditorSize::Inline),
    {
        matches!(self, EditorSize::Inline)
    }

    pub fn is_single_line(&self) -> (r: bool)
        ensures
            r == (*self == EditorSize::SingleLine),
    {
        matches!(self, EditorSize::SingleLine)
    }

    pub fn is_block(&self) -> (r: bool)
        ensures
            r == (*self == EditorSize::Block),
    {
        matches!(self, EditorSize::Block)
    }
}

/// Whether an edit changed the value.
#[derive(Debug, Clone, Copy, PartialEq, Eq, Structural)]
pub struct EditorResponse {
    pub changed: bool,
}

impl EditorResponse {
    pub fn new(changed: bool) -> (r: EditorResponse)
        ensures
            r.changed == changed,
    {
        EditorResponse { changed }
    }

    pub fn changed() -> (r: EditorResponse)
        ensures
            r.changed,
    {
        EditorResponse { changed: true }
    }

    pub fn unchanged() -> (r: EditorResponse)
        ensures
            !r.changed,
    {
        EditorResponse { changed: false }
    }

    /// Combines two responses: changed when either changed.
    pub fn or(self, rhs: EditorResponse) -> (r: EditorResponse)
        ensures
            r.changed == (self.changed || rhs.changed),
    {
        EditorResponse { changed: self.changed || rhs.changed }
    }
}

/// Editor of a color struct, with or without an alpha channel.
#[derive(Debug, Clone, Copy)]
pub struct RgbEditor {
    with_alpha: bool,
}

impl RgbEditor {
    pub fn new(with_alpha: bool) -> (r: RgbEditor)
        ensures
            r.with_alpha() == with_alpha,
    {
        RgbEditor { with_alpha }
    }

    pub closed spec fn with_alpha(&self) -> bool {
        self.with_alpha
    }

    /// Whether the alpha channel is edited.
    pub fn has_alpha(&self) -> (r: bool)
        ensures
            r == self.with_alpha(),
    {
        self.with_alpha
    }

    /// A color editor takes a block.
    pub fn size(&self) -> (r: EditorSize)
        ensures
            r == EditorSize::Block,
    {
        EditorSize::Block
    }
}

/// Editor that shows an error in place of a value.
#[derive(Debug, Clone, Copy)]
pub struct ErrorEditor;

impl ErrorEditor {
    /// An error fits within a line.
    pub fn size(&self) -> (r: EditorSize)
        ensures
            r == EditorSize::Inline,
    {
        EditorSize::Inline
    }
}

/// The message that an [ErrorEditor] shows.
#[derive(Debug, Clone)]
pub struct ErrorProps(pub String);

/// What the documentation panel shows.
#[derive(Debug, Clone)]
pub enum SelectedDocs {
    Empty,
    Node(String),
    Type(ETypeId),
}

impl Default for SelectedDocs {
    fn default() -> (r: SelectedDocs)
        ensures
            r is Empty,
    {
        SelectedDocs::Empty
    }
}

/// Where the project's types come from: the root directory of type
/// sources and the type that the project's files hold.
#[derive(Debug, Clone)]
pub struct TypesConfig {
    root: String,
    pub import: ETypeId,
}

impl TypesConfig {
    pub fn new(root: String, import: ETypeId) -> (r: TypesConfig)
        ensures
            r.root_dir() == root,
            r.import_id() == import,
    {
        TypesConfig { root, import }
    }

    pub closed spec fn root_dir(&self) -> String {
        self.root
    }

    pub closed spec fn import_id(&self) -> ETypeId {
        self.import
    }

    /// The root directory of type sources.
    pub fn root(&self) -> (r: &String)
        ensures
            *r == self.root_dir(),
    {
        &self.root
    }
}

/// Project configuration.
#[derive(Debug, Clone)]
pub struct Config {
    types_config: TypesConfig,
}

impl Config {
    pub fn new(types_config: TypesConfig) -> (r: Config)
        ensures
            r.types() == types_config,
    {
        Config { types_config }
    }

    pub closed spec fn types(&self) -> TypesConfig {
        self.types_config
    }

    pub fn types_config(&self) -> (r: &TypesConfig)
        ensures
            *r == self.types(),
    {
        &self.types_config
    }
}

/// Creates list nodes.
#[derive(Debug, Clone, Copy)]
pub struct ListNodeFactory;

impl ListNodeFactory {
    /// The stable identifier under which list nodes are persisted.
    pub fn id(&self) -> (r: String)
        ensures
            r@ == "list"@,
    {
        String::from_str("list")
    }

    /// A new, empty list node.
    pub fn create(&self) -> (r: GraphNode)
        ensures
            r matches GraphNode::List(l) && l.items_count() == 0 && !l.fixed(),
    {
        GraphNode::List(ListNode::new())
    }
}

/// The node that the factory registered under `id` creates, if any.
pub fn get_snarl_node(id: &String) -> (r: Option<GraphNode>)
    ensures
        id@ == "list"@ <==> r is Some,
        r matches Some(n) ==> n matches GraphNode::List(l) && l.items_count() == 0,
{
    let factory = ListNodeFactory;
    let list = factory.id();
    if *id == list {
        Some(factory.create())
    } else {
        None
    }
}

} // verus!
