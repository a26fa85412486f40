//! Expansion of symbolic component aliases inside `className`-like strings.
//!
//! Alias definitions are written in a CSS-like source as
//! `@expand <Name> { @apply <utilities>; &<Modifier> { @apply <utilities>; } }`
//! blocks.  The library extracts those definitions into a raw alias map,
//! resolves nested alias references (with cycle safety), and expands the
//! tokens of a className string, propagating variant prefixes such as
//! `dark:` and the important marker `!`.

mod alias_map;
mod expand;
mod extract;
mod resolve;
mod text;

pub use alias_map::AliasMap;
pub use expand::{apply_variant_prefix, insert_important, is_class_attr_name};
pub use expand::{Config, TailwindExpandVisitor};
pub use extract::{extract_aliases, extract_block_content};
pub use resolve::{is_alias_token, resolve_aliases};
