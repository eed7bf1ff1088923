use vstd::prelude::*;

verus! {

/// What a token means, over character sequences.
pub enum Token {
    Unclassified,
    LoadPlugin { plugin: Seq<char>, rule: Seq<char>, vers: Seq<char> },
    ConstantMacro { cmacro: Seq<char>, value: Seq<char> },
    VariableMacro {
        plugin: Seq<char>,
        command: Seq<char>,
        args: Seq<char>,
        vmacro: Seq<char>,
        value: Seq<char>,
    },
    Command { plugin: Seq<char>, command: Seq<char>, args: Seq<char> },
    IfGoTo { condition: Seq<char>, label: Seq<char> },
    Label { label: Seq<char> },
}

/// The kind of a script token, with what was read from its line.
#[derive(Debug)]
pub enum TokenType {
    Unclassified,
    LoadPlugin { plugin: String, rule: String, vers: String },
    ConstantMacro { cmacro: String, value: String },
    VariableMacro { plugin: String, command: String, args: String, vmacro: String, value: String },
    Command { plugin: String, command: String, args: String },
    IfGoTo { condition: String, label: String },
    Label { label: String },
}

impl TokenType {
    pub open spec fn view(&self) -> Token {
        match self {
            TokenType::Unclassified => Token::Unclassified,
            TokenType::LoadPlugin { plugin, rule, vers } => Token::LoadPlugin {
                plugin: plugin@,
                rule: rule@,
                vers: vers@,
            },
            TokenType::ConstantMacro { cmacro, value } => Token::ConstantMacro {
                cmacro: cmacro@,
                value: value@,
            },
            TokenType::VariableMacro { plugin, command, args, vmacro, value } =>
                Token::VariableMacro {
                plugin: plugin@,
                command: command@,
                args: args@,
                vmacro: vmacro@,
                value: value@,
            },
            TokenType::Command { plugin, command, args } => Token::Command {
                plugin: plugin@,
                command: command@,
                args: args@,
            },
            TokenType::IfGoTo { condition, label } => Token::IfGoTo {
                condition: condition@,
                label: label@,
            },
            TokenType::Label { label } => Token::Label { label: label@ },
        }
    }
}

impl Default for TokenType {
    fn default() -> (r: TokenType)
        ensures
            r@ == Token::Unclassified,
    {
        TokenType::Unclassified
    }
}

/// One token of a script: its source line and its kind.
#[derive(Debug)]
pub struct Item {
    pub line: String,
    pub token_type: TokenType,
}

impl Item {
    /// A token that holds `line` and is not classified yet.
    pub fn new(line: String) -> (r: Item)
        ensures
            r.line@ == line@,
            r.token_type@ == Token::Unclassified,
    {
        Item { line, token_type: TokenType::Unclassified }
    }
}

impl Default for Item {
    fn default() -> (r: Item)
        ensures
            r.line@ == Seq::<char>::empty(),
            r.token_type@ == Token::Unclassified,
    {
        Item { line: String::new(), token_type: TokenType::Unclassified }
    }
}

/// The kinds of a sequence of tokens.
pub open spec fn kinds(items: Seq<Item>) -> Seq<Token> {
    items.map_values(|it: Item| it.token_type@)
}

} // verus!
