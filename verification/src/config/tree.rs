//! The directives of a configuration, and what each stands for.

use vstd::prelude::*;

verus! {

/// The flags of a command, in the order written, and the command itself.
pub type ConfigExecType = (Vec<String>, String);

/// One directive of a configuration.
#[derive(Debug, PartialEq)]
pub enum ConfigTree {
    /// A comment: the line after the `#`, with its line break.
    Comment(String),
    /// A line break that belongs to no other directive.
    Newline,
    /// A command to run at the first start.
    Exec(ConfigExecType),
    /// A command to run at every start.
    ExecAlways(ConfigExecType),
    /// The text of a token that is kept as it stands.
    Unknown(String),
}

/// The directives of a configuration, in the order of the text.
pub type Config = Vec<ConfigTree>;

/// What a directive stands for, over plain sequences of characters.
pub enum Node {
    Comment(Seq<char>),
    Newline,
    Exec(Seq<Seq<char>>, Seq<char>),
    ExecAlways(Seq<Seq<char>>, Seq<char>),
    Unknown(Seq<char>),
}

/// The contents of a list of strings.
pub open spec fn texts(v: Seq<String>) -> Seq<Seq<char>> {
    v.map_values(|s: String| s@)
}

impl View for ConfigTree {
    type V = Node;

    open spec fn view(&self) -> Node {
        match self {
            ConfigTree::Comment(t) => Node::Comment(t@),
            ConfigTree::Newline => Node::Newline,
            ConfigTree::Exec(p) => Node::Exec(texts(p.0@), p.1@),
            ConfigTree::ExecAlways(p) => Node::ExecAlways(texts(p.0@), p.1@),
            ConfigTree::Unknown(t) => Node::Unknown(t@),
        }
    }
}

impl Clone for ConfigTree {
    fn clone(&self) -> (copy: Self)
        ensures
            copy@ == self@,
    {
        match self {
            ConfigTree::Comment(t) => ConfigTree::Comment(t.clone()),
            ConfigTree::Newline => ConfigTree::Newline,
            ConfigTree::Exec(p) => ConfigTree::Exec(clone_params(p)),
            ConfigTree::ExecAlways(p) => ConfigTree::ExecAlways(clone_params(p)),
            ConfigTree::Unknown(t) => ConfigTree::Unknown(t.clone()),
        }
    }
}

/// A copy of the flags and the command of a directive.
fn clone_params(p: &ConfigExecType) -> (copy: ConfigExecType)
    ensures
        texts(copy.0@) == texts(p.0@),
        copy.1@ == p.1@,
{
    let mut args: Vec<String> = Vec::new();
    let mut i: usize = 0;
    while i < p.0.len()
        invariant
            i <= p.0.len(),
            texts(args@) == texts(p.0@.take(i as int)),
        decreases p.0.len() - i,
    {
        let ghost held = args@;
        let flag = p.0[i].clone();
        args.push(flag);
        assert(p.0@.take(i + 1) =~= p.0@.take(i as int).push(p.0@[i as int]));
        assert(texts(held.push(flag)) =~= texts(held).push(flag@));
        assert(texts(p.0@.take(i as int).push(p.0@[i as int])) =~= texts(
            p.0@.take(i as int),
        ).push(p.0@[i as int]@));
        i += 1;
    }
    assert(p.0@.take(p.0.len() as int) =~= p.0@);
    (args, p.1.clone())
}

/// What a list of directives stands for.
pub open spec fn nodes(v: Seq<ConfigTree>) -> Seq<Node> {
    v.map_values(|t: ConfigTree| t@)
}

} // verus!
