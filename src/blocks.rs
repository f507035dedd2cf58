use vstd::prelude::*;

verus! {

/// The kinds of content filter a tag may name.
#[derive(Clone, Copy, PartialEq, Eq, Structural, Debug)]
pub enum TransformerType {
    /// Trim all whitespace from the start and end of the content.
    Trim,
    /// Trim all whitespace from the start of the content.
    TrimStart,
    /// Trim all whitespace from the end of the content.
    TrimEnd,
    /// Wrap the content in the given string.
    Wrap,
    /// Indent each line with the given string.
    Indent,
    /// Wrap the content in a code block with the given language.
    CodeBlock,
    /// Wrap the content in inline code.
    Code,
    /// Replace every instance of the given string with the replacement.
    Replace,
}

/// The kinds of opening tag.
#[derive(Clone, Copy, PartialEq, Eq, Structural, Debug)]
pub enum BlockType {
    /// Provides content to the consumers of the same name: `{@name}`.
    Provider,
    /// Has its content hoisted from the provider of the same name: `{=name}`.
    Consumer,
}

} // verus!
