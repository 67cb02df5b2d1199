use scherzo_core::plugin::{
    properties_conflict, types_agree, CommandHandler, FieldDef, FieldType, PluginInfo,
    PluginRegistry, RegistryError, Schema, SchemaProperty,
};

fn schema(text: &str) -> Schema {
    Schema { json_schema: text.to_string(), description: Some("Test schema".to_string()) }
}

fn property(name: &str, type_text: Option<&str>) -> SchemaProperty {
    SchemaProperty { name: name.to_string(), type_text: type_text.map(|t| t.to_string()) }
}

#[test]
fn test_registry_config_schema() {
    let mut registry = PluginRegistry::new();

    let schema = Schema {
        json_schema: r#"{"type": "object"}"#.to_string(),
        description: Some("Test schema".to_string()),
    };

    assert!(registry
        .register_config_schema("test".to_string(), schema.clone(), Vec::new())
        .is_ok());
    assert!(registry.register_config_schema("test".to_string(), schema, Vec::new()).is_err());

    let schemas = registry.get_config_schemas();
    assert_eq!(schemas.len(), 1);
    assert!(schemas.iter().any(|e| e.plugin_id == "test"));
}

#[test]
fn test_schema_conflict_detection_same_field_compatible() {
    let mut registry = PluginRegistry::new();

    // Register first plugin with "temp" as number
    let schema1 = Schema {
        json_schema: r#"{
                "type": "object",
                "properties": {
                    "temp": {"type": "number"}
                }
            }"#
        .to_string(),
        description: Some("Plugin 1".to_string()),
    };
    registry
        .register_config_schema(
            "plugin1".to_string(),
            schema1,
            vec![property("temp", Some("\"number\""))],
        )
        .unwrap();

    // Register second plugin with same "temp" field as number - should work
    let schema2 = Schema {
        json_schema: r#"{
                "type": "object",
                "properties": {
                    "temp": {"type": "number"}
                }
            }"#
        .to_string(),
        description: Some("Plugin 2".to_string()),
    };
    let result = registry.register_config_schema(
        "plugin2".to_string(),
        schema2,
        vec![property("temp", Some("\"number\""))],
    );
    assert!(result.is_ok());
}

#[test]
fn test_schema_conflict_detection_incompatible_types() {
    let mut registry = PluginRegistry::new();

    // Register first plugin with "temp" as number
    let schema1 = Schema {
        json_schema: r#"{
                "type": "object",
                "properties": {
                    "temp": {"type": "number"}
                }
            }"#
        .to_string(),
        description: Some("Plugin 1".to_string()),
    };
    registry
        .register_config_schema(
            "plugin1".to_string(),
            schema1,
            vec![property("temp", Some("\"number\""))],
        )
        .unwrap();

    // Try to register second plugin with "temp" as string - should fail
    let schema2 = Schema {
        json_schema: r#"{
                "type": "object",
                "properties": {
                    "temp": {"type": "string"}
                }
            }"#
        .to_string(),
        description: Some("Plugin 2".to_string()),
    };
    let result = registry.register_config_schema(
        "plugin2".to_string(),
        schema2,
        vec![property("temp", Some("\"string\""))],
    );
    assert!(result.is_err());
    assert!(result.unwrap_err().message().contains("incompatible types"));
    assert_eq!(registry.get_config_schemas().len(), 1);
}

#[test]
fn test_schema_duplicate_plugin_registration() {
    let mut registry = PluginRegistry::new();

    let schema = Schema {
        json_schema: r#"{"type": "object", "properties": {}}"#.to_string(),
        description: Some("Test".to_string()),
    };

    // First registration should succeed
    assert!(registry
        .register_config_schema("plugin1".to_string(), schema.clone(), Vec::new())
        .is_ok());

    // Second registration with same plugin ID should fail
    let result = registry.register_config_schema("plugin1".to_string(), schema, Vec::new());
    assert!(result.is_err());
    assert!(result.unwrap_err().message().contains("already registered"));
}

#[test]
fn errors_say_what_went_wrong() {
    assert_eq!(
        RegistryError::HandlerNotFound { handler_id: 3 }.message(),
        "Command handler not found"
    );
    assert_eq!(RegistryError::PluginAlreadyRegistered.message(), "Plugin already registered");
    assert_eq!(
        RegistryError::SchemaAlreadyRegistered.message(),
        "Plugin already registered a config schema"
    );
    assert_eq!(
        RegistryError::SchemaConflict { existing: 0 }.message(),
        "Schema conflict detected: plugins have incompatible types for a field"
    );
}

#[test]
fn conflict_names_the_first_schema_that_disagrees() {
    let mut registry = PluginRegistry::new();
    registry
        .register_config_schema("a".to_string(), schema("{}"), vec![property("x", Some("1"))])
        .unwrap();
    registry
        .register_config_schema("b".to_string(), schema("{}"), vec![property("y", Some("2"))])
        .unwrap();
    registry
        .register_config_schema("c".to_string(), schema("{}"), vec![property("y", Some("2"))])
        .unwrap();
    let r = registry.register_config_schema(
        "d".to_string(),
        schema("{}"),
        vec![property("x", Some("1")), property("y", Some("3"))],
    );
    assert_eq!(r, Err(RegistryError::SchemaConflict { existing: 1 }));
    // a duplicate plugin is named before any conflict
    let again = registry.register_config_schema(
        "a".to_string(),
        schema("{}"),
        vec![property("x", Some("9"))],
    );
    assert_eq!(again, Err(RegistryError::SchemaAlreadyRegistered));
}

#[test]
fn a_type_and_no_type_disagree() {
    assert!(types_agree(&None, &None));
    assert!(types_agree(&Some("a".to_string()), &Some("a".to_string())));
    assert!(!types_agree(&Some("a".to_string()), &Some("b".to_string())));
    assert!(!types_agree(&Some("a".to_string()), &None));
    assert!(!types_agree(&None, &Some("a".to_string())));
    let with = vec![property("p", Some("\"string\""))];
    let without = vec![property("p", None)];
    let other = vec![property("q", None)];
    assert!(properties_conflict(&with, &without));
    assert!(properties_conflict(&without, &with));
    assert!(!properties_conflict(&with, &with));
    assert!(!properties_conflict(&with, &other));
    assert!(!properties_conflict(&Vec::new(), &with));
}

#[test]
fn test_registry_command_handler() {
    let mut registry = PluginRegistry::new();

    let handler = CommandHandler {
        command: "G1".to_string(),
        params: vec![FieldDef {
            name: "X".to_string(),
            field_type: FieldType::Float,
            required: false,
            description: Some("X coordinate".to_string()),
            default_value: None,
        }],
        description: Some("Linear move".to_string()),
        scheduling_class: "rt".to_string(),
    };

    let id = registry.register_command_handler(handler).unwrap();
    assert_eq!(id, 0);

    let handlers = registry.get_command_handlers();
    assert_eq!(handlers.len(), 1);
    assert!(handlers.contains_key(&id));

    assert!(registry.unregister_command_handler(id).is_ok());
    assert!(registry.unregister_command_handler(id).is_err());
}

#[test]
fn test_registry_plugin_info() {
    let mut registry = PluginRegistry::new();

    let info = PluginInfo {
        id: "com.example.test".to_string(),
        name: "Test Plugin".to_string(),
        version: "1.0.0".to_string(),
        description: Some("A test plugin".to_string()),
    };

    assert!(registry.register_plugin(info.clone()).is_ok());
    assert!(registry.register_plugin(info).is_err());

    let plugins = registry.get_plugins();
    assert_eq!(plugins.len(), 1);
    assert!(plugins.iter().any(|p| p.id == "com.example.test"));
}

#[test]
fn handler_ids_count_up_and_are_not_reused() {
    let mut registry = PluginRegistry::new();
    let make = |name: &str| CommandHandler {
        command: name.to_string(),
        params: Vec::new(),
        description: None,
        scheduling_class: "bg".to_string(),
    };
    assert!(registry.has_free_handler_id());
    assert_eq!(registry.register_command_handler(make("M104")), Ok(0));
    assert_eq!(registry.register_command_handler(make("M105")), Ok(1));
    assert_eq!(registry.unregister_command_handler(0), Ok(()));
    assert_eq!(registry.register_command_handler(make("M106")), Ok(2));
    assert_eq!(registry.get_command_handlers().len(), 2);
    assert_eq!(registry.get_command_handlers()[&2].command, "M106");
    assert_eq!(
        registry.unregister_command_handler(7),
        Err(RegistryError::HandlerNotFound { handler_id: 7 })
    );
}

#[test]
fn second_plugin_with_other_id_is_kept_in_order() {
    let mut registry = PluginRegistry::new();
    let make = |id: &str| PluginInfo {
        id: id.to_string(),
        name: "n".to_string(),
        version: "0.1.0".to_string(),
        description: None,
    };
    assert_eq!(registry.register_plugin(make("a")), Ok(()));
    assert_eq!(registry.register_plugin(make("b")), Ok(()));
    assert_eq!(
        registry.register_plugin(make("a")),
        Err(RegistryError::PluginAlreadyRegistered)
    );
    let ids: Vec<&str> = registry.get_plugins().iter().map(|p| p.id.as_str()).collect();
    assert_eq!(ids, vec!["a", "b"]);
    assert!(registry.is_registered(&"b".to_string()));
    assert!(!registry.is_registered(&"c".to_string()));
    assert!(registry.get_config_schemas().is_empty());
}
