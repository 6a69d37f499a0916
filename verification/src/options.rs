//! Parse- and emit-time configuration.

use vstd::prelude::*;

verus! {

/// Selects scalar-resolution rules.
#[derive(Debug, Clone, Copy, PartialEq, Eq, Structural, Default)]
pub enum Schema {
    /// YAML 1.2 core schema (default).
    #[default]
    Core1_2,
    /// YAML 1.2 JSON schema (strict).
    Json1_2,
    /// YAML 1.1 resolution (the "Norway problem", leading-zero octal).
    Yaml1_1,
    /// Everything resolves to a string.
    Failsafe,
}

/// Whether `<<` merge keys are honored. Independent of schema.
#[derive(Debug, Clone, Copy, PartialEq, Eq, Structural, Default)]
pub enum MergeKeys {
    /// On for the 1.1 schema, off otherwise.
    #[default]
    Auto,
    On,
    Off,
}

impl MergeKeys {
    /// Whether `<<` is a merge key under `schema`.
    pub open spec fn honored(self, schema: Schema) -> bool {
        self == MergeKeys::On || (self == MergeKeys::Auto && schema == Schema::Yaml1_1)
    }

    /// Resolves whether merge keys are active under the given schema.
    pub fn enabled_for(self, schema: Schema) -> (on: bool)
        ensures
            on == self.honored(schema),
    {
        match self {
            MergeKeys::On => true,
            MergeKeys::Off => false,
            MergeKeys::Auto => matches!(schema, Schema::Yaml1_1),
        }
    }
}

/// Security guards, enabled by default.
#[derive(Debug, Clone, Copy, PartialEq, Eq, Structural)]
pub struct Limits {
    /// Max number of nodes copied out of anchors by aliases (billion-laughs guard).
    pub max_aliases: usize,
    /// Max nesting depth of collections.
    pub max_depth: usize,
    /// Max accepted input size in bytes.
    pub max_input_bytes: usize,
}

/// Ten thousand aliased nodes, 128 levels, 64 MiB.
pub open spec fn default_limits() -> Limits {
    Limits { max_aliases: 10_000, max_depth: 128, max_input_bytes: 0x400_0000 }
}

impl Default for Limits {
    fn default() -> (l: Self)
        ensures
            l == default_limits(),
    {
        Self { max_aliases: 10_000, max_depth: 128, max_input_bytes: 64 * 1024 * 1024 }
    }
}

/// Options controlling parsing.
#[derive(Debug, Clone, Copy, PartialEq, Eq, Structural)]
pub struct ParseOptions {
    pub schema: Schema,
    pub merge_keys: MergeKeys,
    pub preserve_formatting: bool,
    pub limits: Limits,
}

/// Core schema, automatic merge keys, no formatting, default limits.
pub open spec fn default_parse_options() -> ParseOptions {
    ParseOptions {
        schema: Schema::Core1_2,
        merge_keys: MergeKeys::Auto,
        preserve_formatting: false,
        limits: default_limits(),
    }
}

impl Default for ParseOptions {
    fn default() -> (o: Self)
        ensures
            o == default_parse_options(),
    {
        Self {
            schema: Schema::Core1_2,
            merge_keys: MergeKeys::Auto,
            preserve_formatting: false,
            limits: Limits::default(),
        }
    }
}

impl ParseOptions {
    /// Default options with formatting preservation enabled (round-trip).
    pub fn preserve_formatting() -> (o: Self)
        ensures
            o == (ParseOptions { preserve_formatting: true, ..default_parse_options() }),
    {
        let base = Self::default();
        Self {
            schema: base.schema,
            merge_keys: base.merge_keys,
            preserve_formatting: true,
            limits: base.limits,
        }
    }

    pub fn with_schema(self, schema: Schema) -> (o: Self)
        ensures
            o == (ParseOptions { schema, ..self }),
    {
        let mut options = self;
        options.schema = schema;
        options
    }

    pub fn with_merge_keys(self, merge_keys: MergeKeys) -> (o: Self)
        ensures
            o == (ParseOptions { merge_keys, ..self }),
    {
        let mut options = self;
        options.merge_keys = merge_keys;
        options
    }

    pub fn with_limits(self, limits: Limits) -> (o: Self)
        ensures
            o == (ParseOptions { limits, ..self }),
    {
        let mut options = self;
        options.limits = limits;
        options
    }
}

/// Options controlling emission.
#[derive(Debug, Clone, Copy, PartialEq, Eq, Structural)]
pub struct EmitOptions {
    pub round_trip: bool,
    pub indent: usize,
}

/// Plain emission, two spaces per level.
pub open spec fn default_emit_options() -> EmitOptions {
    EmitOptions { round_trip: false, indent: 2 }
}

impl Default for EmitOptions {
    fn default() -> (o: Self)
        ensures
            o == default_emit_options(),
    {
        Self { round_trip: false, indent: 2 }
    }
}

impl EmitOptions {
    /// Default options with round-trip emission enabled.
    pub fn round_trip() -> (o: Self)
        ensures
            o == (EmitOptions { round_trip: true, ..default_emit_options() }),
    {
        let base = Self::default();
        Self { round_trip: true, indent: base.indent }
    }
}

/// What is not asked for: the core schema, merge keys as the schema has them, no formatting,
/// ten thousand copied nodes, 128 levels and 64 times 1024 times 1024 bytes; and two spaces
/// per level where a value is written.
pub proof fn law_defaults_are_moderate()
    ensures
        ({
            let o = default_parse_options();
            &&& o.schema == Schema::Core1_2
            &&& o.merge_keys == MergeKeys::Auto
            &&& !o.preserve_formatting
            &&& o.limits.max_aliases == 100 * 100
            &&& o.limits.max_depth == 2 * 64
            &&& o.limits.max_input_bytes == 64 * 1024 * 1024
        }),
        default_emit_options().indent == 2,
        !default_emit_options().round_trip,
{
}

/// Merge keys that are switched on or off are so under every schema. Otherwise only the 1.1
/// schema has them.
pub proof fn law_merge_keys_follow_the_schema(schema: Schema)
    ensures
        MergeKeys::On.honored(schema),
        !MergeKeys::Off.honored(schema),
        MergeKeys::Auto.honored(schema) <==> schema == Schema::Yaml1_1,
{
}

} // verus!
