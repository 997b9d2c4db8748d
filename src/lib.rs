//! Evaluation core of a data/graph editor: a typed value model, a type
//! registry with generic instantiation, a JSON codec driven by types, and a
//! memoizing dataflow graph engine over an `egui_snarl` node graph.

pub mod codec;
pub mod defaults;
pub mod editor;
pub mod execution;
pub mod generics;
pub mod json;
pub mod node;
pub mod registry;
pub mod roundtrip;
pub mod snarl;
pub mod types;

pub use codec::{CodecError, DecodeError, PathSegment};
pub use editor::{
    get_snarl_node, Config, EditorResponse, EditorSize, ErrorEditor, ErrorProps, ListNodeFactory, RgbEditor,
    SelectedDocs, TypesConfig,
};
pub use execution::{GraphCache, GraphExecutionContext};
pub use json::{JsonKind, JsonValue};
pub use node::{GraphError, GraphNode, ListNode, NodePortType};
pub use registry::{
    EEnumData, EEnumVariant, EItemInfo, EObject, EStructData, EStructField, ETypesRegistry, EnumPattern,
    RegistryError, Tagged,
};
pub use snarl::{InPinId, NodeId, OutPinId};
pub use types::{EDataType, EEnumVariantId, EListId, EMapId, ENumber, ETypeConst, ETypeId, EValue};
