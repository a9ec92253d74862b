//! Flow definitions: their types and their validation.

pub mod flow;
pub mod validate;
pub mod yaml;
pub mod schema;

pub use flow::{
    Catchup, FlowDefinition, InputDef, InputType, ModelError, OnError, OutputDef, ParallelTask,
    PluginTask, RetryPolicy, TaskDef, TaskKind, TriggerDef, VarDef,
};
pub use validate::is_valid_id;
