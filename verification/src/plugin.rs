//! Registry of what plugins contribute: their identity and their command handlers.

use vstd::prelude::*;
use std::collections::HashMap;

verus! {

broadcast use vstd::std_specs::hash::group_hash_axioms;

/// Who a plugin is.
#[derive(Debug, Clone)]
pub struct PluginInfo {
    pub id: String,
    pub name: String,
    pub version: String,
    pub description: Option<String>,
}

/// A schema for configuration or for command parameters.
#[derive(Debug, Clone)]
pub struct Schema {
    /// JSON Schema as text.
    pub json_schema: String,
    pub description: Option<String>,
}

/// Type of a command parameter.
#[derive(Debug, Clone, Copy, PartialEq, Eq, Structural)]
pub enum FieldType {
    Int,
    Float,
    String,
    Bool,
    ListInt,
    ListFloat,
    ListString,
}

/// One parameter of a command.
#[derive(Debug, Clone)]
pub struct FieldDef {
    pub name: String,
    pub field_type: FieldType,
    pub required: bool,
    pub description: Option<String>,
    pub default_value: Option<String>,
}

/// What handles one command.
#[derive(Debug, Clone)]
pub struct CommandHandler {
    pub command: String,
    pub params: Vec<FieldDef>,
    pub description: Option<String>,
    pub scheduling_class: String,
}

/// Why the registry refused.
#[derive(Debug, Clone, Copy, PartialEq, Eq, Structural)]
pub enum RegistryError {
    /// No handler has this id.
    HandlerNotFound { handler_id: u32 },
    /// A plugin with the same id is registered already.
    PluginAlreadyRegistered,
    /// The plugin has registered a configuration schema already.
    SchemaAlreadyRegistered,
    /// The schema gives a property another type than the schema at place
    /// `existing`, the first registered one that it disagrees with.
    SchemaConflict { existing: usize },
}

impl RegistryError {
    /// What went wrong, in words.
    pub fn message(&self) -> (text: &'static str)
        ensures
            text@ == match *self {
                RegistryError::HandlerNotFound { handler_id } => "Command handler not found"@,
                RegistryError::PluginAlreadyRegistered => "Plugin already registered"@,
                RegistryError::SchemaAlreadyRegistered =>
                    "Plugin already registered a config schema"@,
                RegistryError::SchemaConflict { existing } =>
                    "Schema conflict detected: plugins have incompatible types for a field"@,
            },
    {
        match self {
            RegistryError::HandlerNotFound { handler_id } => "Command handler not found",
            RegistryError::PluginAlreadyRegistered => "Plugin already registered",
            RegistryError::SchemaAlreadyRegistered => "Plugin already registered a config schema",
            RegistryError::SchemaConflict { existing } =>
                "Schema conflict detected: plugins have incompatible types for a field",
        }
    }
}

/// One property of a configuration schema, as far as the registry reads it.
#[derive(Debug, Clone)]
pub struct SchemaProperty {
    pub name: String,
    /// The property's type as it is written in the schema; `None` where
    /// the schema gives it none.
    pub type_text: Option<String>,
}

/// The configuration schema that one plugin has registered.
#[derive(Debug, Clone)]
pub struct ConfigEntry {
    pub plugin_id: String,
    pub schema: Schema,
    pub properties: Vec<SchemaProperty>,
}

/// What plugins have registered.
pub struct PluginRegistry {
    config_schemas: Vec<ConfigEntry>,
    command_handlers: HashMap<u32, CommandHandler>,
    next_handler_id: u32,
    plugins: Vec<PluginInfo>,
}

/// Whether two properties are given the same type, or none.
pub open spec fn same_type(a: Option<String>, b: Option<String>) -> bool {
    match (a, b) {
        (None, None) => true,
        (Some(s), Some(t)) => s@ == t@,
        _ => false,
    }
}

/// Whether a property of `a` has the name of a property of `b` and another type.
pub open spec fn conflicts(a: Seq<SchemaProperty>, b: Seq<SchemaProperty>) -> bool {
    exists|i: int, j: int|
        0 <= i < a.len() && 0 <= j < b.len() && (#[trigger] a[i]).name@ == (#[trigger] b[j]).name@
            && !same_type(a[i].type_text, b[j].type_text)
}

/// Whether one of `entries` belongs to the plugin `id`.
pub open spec fn has_schema(entries: Seq<ConfigEntry>, id: Seq<char>) -> bool {
    exists|i: int| 0 <= i < entries.len() && (#[trigger] entries[i]).plugin_id@ == id
}

/// Place of the first of `entries` that `properties` disagree with.
pub open spec fn first_conflict(
    entries: Seq<ConfigEntry>,
    properties: Seq<SchemaProperty>,
    k: int,
) -> bool {
    &&& 0 <= k < entries.len()
    &&& conflicts(properties, entries[k].properties@)
    &&& forall|i: int| 0 <= i < k ==> !conflicts(properties, (#[trigger] entries[i]).properties@)
}

/// Whether one of `plugins` has the id `id`.
pub open spec fn has_plugin(plugins: Seq<PluginInfo>, id: Seq<char>) -> bool {
    exists|i: int| 0 <= i < plugins.len() && (#[trigger] plugins[i]).id@ == id
}

impl PluginRegistry {
    /// The registered plugins, in the order of their registration.
    pub closed spec fn plugins(&self) -> Seq<PluginInfo> {
        self.plugins@
    }

    /// The registered handlers by their ids.
    pub closed spec fn handlers(&self) -> Map<u32, CommandHandler> {
        self.command_handlers@
    }

    /// The id that the next handler gets.
    pub closed spec fn next_id(&self) -> u32 {
        self.next_handler_id
    }

    /// The registered configuration schemas, in the order of their registration.
    pub closed spec fn schemas(&self) -> Seq<ConfigEntry> {
        self.config_schemas@
    }

    /// No two plugins share an id, and no handler has an id that is still
    /// to be handed out.
    pub closed spec fn wf(&self) -> bool {
        &&& forall|i: int, j: int|
            0 <= i < j < self.plugins@.len() ==> (#[trigger] self.plugins@[i]).id@ != (
            #[trigger] self.plugins@[j]).id@
        &&& forall|id: u32| #[trigger]
            self.command_handlers@.contains_key(id) ==> id < self.next_handler_id
    }

    /// An empty registry.
    pub fn new() -> (registry: Self)
        ensures
            registry.wf(),
            registry.plugins() == Seq::<PluginInfo>::empty(),
            registry.handlers() == Map::<u32, CommandHandler>::empty(),
            registry.schemas() == Seq::<ConfigEntry>::empty(),
            registry.next_id() == 0,
    {
        PluginRegistry {
            config_schemas: Vec::new(),
            command_handlers: HashMap::new(),
            next_handler_id: 0,
            plugins: Vec::new(),
        }
    }

    /// Whether another handler can still get an id.
    pub fn has_free_handler_id(&self) -> (free: bool)
        ensures
            free == (self.next_id() < u32::MAX),
    {
        self.next_handler_id < u32::MAX
    }

    /// Registers `handler` under the next id and returns that id.
    pub fn register_command_handler(&mut self, handler: CommandHandler) -> (r: Result<
        u32,
        RegistryError,
    >)
        requires
            old(self).wf(),
            old(self).next_id() < u32::MAX,
        ensures
            final(self).wf(),
            r == Ok::<u32, RegistryError>(old(self).next_id()),
            final(self).next_id() == old(self).next_id() + 1,
            final(self).handlers() == old(self).handlers().insert(old(self).next_id(), handler),
            final(self).plugins() == old(self).plugins(),
            final(self).schemas() == old(self).schemas(),
    {
        let handler_id = self.next_handler_id;
        self.next_handler_id = self.next_handler_id + 1;
        self.command_handlers.insert(handler_id, handler);
        Ok(handler_id)
    }

    /// Removes the handler with the id `handler_id`; fails where there is none.
    pub fn unregister_command_handler(&mut self, handler_id: u32) -> (r: Result<
        (),
        RegistryError,
    >)
        requires
            old(self).wf(),
        ensures
            final(self).wf(),
            old(self).handlers().contains_key(handler_id) ==> r == Ok::<(), RegistryError>(())
                && final(self).handlers() == old(self).handlers().remove(handler_id),
            !old(self).handlers().contains_key(handler_id) ==> r == Err::<(), RegistryError>(
                RegistryError::HandlerNotFound { handler_id },
            ) && final(self).handlers() == old(self).handlers(),
            final(self).next_id() == old(self).next_id(),
            final(self).plugins() == old(self).plugins(),
            final(self).schemas() == old(self).schemas(),
    {
        if self.command_handlers.contains_key(&handler_id) {
            self.command_handlers.remove(&handler_id);
            Ok(())
        } else {
            Err(RegistryError::HandlerNotFound { handler_id })
        }
    }

    /// Whether a plugin with the id `id` is registered.
    pub fn is_registered(&self, id: &String) -> (found: bool)
        ensures
            found == has_plugin(self.plugins(), id@),
    {
        let mut i: usize = 0;
        while i < self.plugins.len()
            invariant
                i <= self.plugins@.len(),
                forall|j: int| 0 <= j < i ==> (#[trigger] self.plugins@[j]).id@ != id@,
            decreases self.plugins@.len() - i,
        {
            if self.plugins[i].id == *id {
                return true;
            }
            i = i + 1;
        }
        false
    }

    /// Registers a plugin; fails where one with the same id is registered.
    pub fn register_plugin(&mut self, info: PluginInfo) -> (r: Result<(), RegistryError>)
        requires
            old(self).wf(),
        ensures
            final(self).wf(),
            !has_plugin(old(self).plugins(), info.id@) ==> r == Ok::<(), RegistryError>(())
                && final(self).plugins() == old(self).plugins().push(info),
            has_plugin(old(self).plugins(), info.id@) ==> r == Err::<(), RegistryError>(
                RegistryError::PluginAlreadyRegistered,
            ) && final(self).plugins() == old(self).plugins(),
            final(self).handlers() == old(self).handlers(),
            final(self).next_id() == old(self).next_id(),
            final(self).schemas() == old(self).schemas(),
    {
        if self.is_registered(&info.id) {
            return Err(RegistryError::PluginAlreadyRegistered);
        }
        self.plugins.push(info);
        Ok(())
    }

    /// Registers the configuration schema of a plugin, with the properties
    /// that it holds. A second schema of the same plugin is refused, and so
    /// is a schema that gives a property another type than a schema
    /// registered before gives the property of that name.
    pub fn register_config_schema(
        &mut self,
        plugin_id: String,
        schema: Schema,
        properties: Vec<SchemaProperty>,
    ) -> (r: Result<(), RegistryError>)
        requires
            old(self).wf(),
        ensures
            final(self).wf(),
            final(self).handlers() == old(self).handlers(),
            final(self).next_id() == old(self).next_id(),
            final(self).plugins() == old(self).plugins(),
            match r {
                Ok(_) => {
                    &&& !has_schema(old(self).schemas(), plugin_id@)
                    &&& forall|k: int|
                        0 <= k < old(self).schemas().len() ==> !conflicts(
                            properties@,
                            (#[trigger] old(self).schemas()[k]).properties@,
                        )
                    &&& final(self).schemas() == old(self).schemas().push(
                        (ConfigEntry { plugin_id, schema, properties }),
                    )
                },
                Err(RegistryError::SchemaAlreadyRegistered) => {
                    &&& has_schema(old(self).schemas(), plugin_id@)
                    &&& final(self).schemas() == old(self).schemas()
                },
                Err(RegistryError::SchemaConflict { existing }) => {
                    &&& !has_schema(old(self).schemas(), plugin_id@)
                    &&& first_conflict(old(self).schemas(), properties@, existing as int)
                    &&& final(self).schemas() == old(self).schemas()
                },
                Err(_) => false,
            },
    {
        let mut i: usize = 0;
        while i < self.config_schemas.len()
            invariant
                *self == *old(self),
                self.wf(),
                i <= self.config_schemas@.len(),
                forall|j: int|
                    0 <= j < i ==> (#[trigger] self.config_schemas@[j]).plugin_id@ != plugin_id@,
            decreases self.config_schemas@.len() - i,
        {
            if self.config_schemas[i].plugin_id == plugin_id {
                return Err(RegistryError::SchemaAlreadyRegistered);
            }
            i = i + 1;
        }
        let mut k: usize = 0;
        while k < self.config_schemas.len()
            invariant
                *self == *old(self),
                self.wf(),
                k <= self.config_schemas@.len(),
                !has_schema(self.config_schemas@, plugin_id@),
                forall|j: int|
                    0 <= j < k ==> !conflicts(
                        properties@,
                        (#[trigger] self.config_schemas@[j]).properties@,
                    ),
            decreases self.config_schemas@.len() - k,
        {
            if properties_conflict(&properties, &self.config_schemas[k].properties) {
                return Err(RegistryError::SchemaConflict { existing: k });
            }
            k = k + 1;
        }
        self.config_schemas.push(ConfigEntry { plugin_id, schema, properties });
        Ok(())
    }

    /// The registered configuration schemas, in the order of their registration.
    pub fn get_config_schemas(&self) -> (schemas: &Vec<ConfigEntry>)
        ensures
            schemas@ == self.schemas(),
    {
        &self.config_schemas
    }

    /// The registered handlers by their ids.
    pub fn get_command_handlers(&self) -> (handlers: &HashMap<u32, CommandHandler>)
        ensures
            handlers@ == self.handlers(),
    {
        &self.command_handlers
    }

    /// The registered plugins, in the order of their registration.
    pub fn get_plugins(&self) -> (plugins: &Vec<PluginInfo>)
        ensures
            plugins@ == self.plugins(),
    {
        &self.plugins
    }
}

/// Whether two optional texts are both absent or hold the same characters.
pub fn types_agree(a: &Option<String>, b: &Option<String>) -> (same: bool)
    ensures
        same == same_type(*a, *b),
{
    match (a, b) {
        (None, None) => true,
        (Some(s), Some(t)) => *s == *t,
        _ => false,
    }
}

/// Whether a property of `a` has the name of a property of `b` and another type.
pub fn properties_conflict(a: &Vec<SchemaProperty>, b: &Vec<SchemaProperty>) -> (found: bool)
    ensures
        found == conflicts(a@, b@),
{
    let mut i: usize = 0;
    while i < a.len()
        invariant
            i <= a@.len(),
            forall|x: int, y: int|
                0 <= x < i && 0 <= y < b@.len() ==> !((#[trigger] a@[x]).name@ == (
                #[trigger] b@[y]).name@ && !same_type(a@[x].type_text, b@[y].type_text)),
        decreases a@.len() - i,
    {
        let mut j: usize = 0;
        while j < b.len()
            invariant
                i < a@.len(),
                j <= b@.len(),
                forall|x: int, y: int|
                    0 <= x < i && 0 <= y < b@.len() ==> !((#[trigger] a@[x]).name@ == (
                    #[trigger] b@[y]).name@ && !same_type(a@[x].type_text, b@[y].type_text)),
                forall|y: int|
                    0 <= y < j ==> !(a@[i as int].name@ == (#[trigger] b@[y]).name@ && !same_type(
                        a@[i as int].type_text,
                        b@[y].type_text,
                    )),
            decreases b@.len() - j,
        {
            if a[i].name == b[j].name && !types_agree(&a[i].type_text, &b[j].type_text) {
                return true;
            }
            j = j + 1;
        }
        i = i + 1;
    }
    false
}

} // verus!
