//! How the lists between the brackets of `display` and `from` attributes are read.
//!
//! A reader says what must stand next in the tokens. What the tokens hold there is handed to it, until
//! it wants no more. Tokens that hold something else do not parse.

use vstd::prelude::*;

use crate::error_derive::syntax::{Conversion, Expression, FieldKey, List, Literal};

verus! {

/// What the next token is, as far as a reader asks.
#[derive(Clone, Copy, Debug, PartialEq, Eq, Structural)]
pub enum Ahead {
    End,
    Comma,
    /// Round brackets.
    Group,
    Literal,
    Other,
}

/// What a reader wants next.
#[derive(Clone, Copy, Debug, PartialEq, Eq, Structural)]
pub enum Wanted {
    Literal,
    Name,
    Comma,
    Colon,
    Expression,
    Type,
    /// The round brackets, which are then read.
    Group,
    /// The end of the tokens, or of those in the brackets.
    End,
    /// Nothing: the rest of the tokens is not read.
    Nothing,
}

/// Reads `"template", argument, argument`, where a comma may follow the last.
pub struct DisplayReader {
    pub template: Option<Literal>,
    pub arguments: Vec<Expression>,
    /// Whether a comma was read last.
    pub comma: bool,
}

impl DisplayReader {
    pub fn new() -> (reader: DisplayReader)
        ensures
            reader.template is None,
            reader.arguments@.len() == 0,
            !reader.comma,
    {
        DisplayReader { template: None, arguments: Vec::new(), comma: false }
    }

    pub open spec fn wants(&self, ahead: Ahead) -> Wanted {
        match self.template {
            None => Wanted::Literal,
            Some(Literal::Text(text)) => if self.comma {
                if ahead == Ahead::End {
                    Wanted::End
                } else {
                    Wanted::Expression
                }
            } else if ahead == Ahead::Comma {
                Wanted::Comma
            } else {
                Wanted::End
            },
            Some(literal) => Wanted::Nothing,
        }
    }

    /// What must stand next. Behind a template that is no string nothing is read.
    pub fn wanted(&self, ahead: Ahead) -> (wanted: Wanted)
        ensures
            wanted == self.wants(ahead),
    {
        match &self.template {
            None => Wanted::Literal,
            Some(Literal::Text(_)) => if self.comma {
                if ahead == Ahead::End {
                    Wanted::End
                } else {
                    Wanted::Expression
                }
            } else if ahead == Ahead::Comma {
                Wanted::Comma
            } else {
                Wanted::End
            },
            Some(_) => Wanted::Nothing,
        }
    }

    pub fn accept_template(&mut self, literal: Literal)
        requires
            old(self).template is None,
        ensures
            *final(self) == (DisplayReader { template: Some(literal), ..*old(self) }),
    {
        self.template = Some(literal);
    }

    pub fn accept_comma(&mut self)
        ensures
            *final(self) == (DisplayReader { comma: true, ..*old(self) }),
    {
        self.comma = true;
    }

    pub fn accept_argument(&mut self, argument: Expression)
        requires
            old(self).comma,
        ensures
            final(self).arguments@ == old(self).arguments@.push(argument),
            !final(self).comma,
            final(self).template == old(self).template,
    {
        self.arguments.push(argument);
        self.comma = false;
    }

    /// The list that was read.
    pub fn finish(self) -> (list: List)
        requires
            self.template is Some,
        ensures
            list == (List::Template { literal: self.template->0, arguments: self.arguments }),
    {
        List::Template { literal: self.template.unwrap(), arguments: self.arguments }
    }
}

/// Where a reader of conversions stands.
#[derive(Clone, Copy, Debug, PartialEq, Eq, Structural)]
pub enum FromStage {
    /// Before a type, or at the end.
    Type,
    /// Behind a type, where brackets may stand.
    Fields,
    /// Before a key in the brackets, or at their end.
    Key,
    Colon,
    Value,
    /// Behind a value in the brackets.
    Field,
    /// Behind the brackets.
    Conversion,
    /// Behind a key that is none.
    Refused,
}

/// Reads `Type, Type(key: value, key: value)`, where a comma may follow the last of each list.
pub struct FromReader {
    pub conversions: Vec<Conversion>,
    pub stage: FromStage,
    pub key: Option<FieldKey>,
}

/// Whether the key names a field: a name, or the place of a field of a tuple.
pub open spec fn names_field(key: FieldKey) -> bool {
    key is Name || (key matches FieldKey::Literal(literal) && literal is Integer)
}

impl FromReader {
    pub fn new() -> (reader: FromReader)
        ensures
            reader.wf(),
            reader.conversions@.len() == 0,
            reader.stage == FromStage::Type,
            reader.key is None,
    {
        FromReader { conversions: Vec::new(), stage: FromStage::Type, key: None }
    }

    /// Whether there is a conversion to add to, and a key where one was read.
    pub open spec fn wf(&self) -> bool {
        &&& self.stage == FromStage::Type || self.conversions@.len() > 0
        &&& self.key is Some <==> self.stage == FromStage::Colon || self.stage == FromStage::Value
    }

    pub open spec fn wants(&self, ahead: Ahead) -> Wanted {
        match self.stage {
            FromStage::Type => if ahead == Ahead::End {
                Wanted::End
            } else {
                Wanted::Type
            },
            FromStage::Fields => match ahead {
                Ahead::Group => Wanted::Group,
                Ahead::End => Wanted::End,
                _ => Wanted::Comma,
            },
            FromStage::Key => match ahead {
                Ahead::End => Wanted::End,
                Ahead::Literal => Wanted::Literal,
                _ => Wanted::Name,
            },
            FromStage::Colon => Wanted::Colon,
            FromStage::Value => Wanted::Expression,
            FromStage::Field => if ahead == Ahead::End {
                Wanted::End
            } else {
                Wanted::Comma
            },
            FromStage::Conversion => if ahead == Ahead::End {
                Wanted::End
            } else {
                Wanted::Comma
            },
            FromStage::Refused => Wanted::Nothing,
        }
    }

    /// What must stand next. Behind a key that is none nothing is read.
    pub fn wanted(&self, ahead: Ahead) -> (wanted: Wanted)
        ensures
            wanted == self.wants(ahead),
    {
        match self.stage {
            FromStage::Type => if ahead == Ahead::End {
                Wanted::End
            } else {
                Wanted::Type
            },
            FromStage::Fields => match ahead {
                Ahead::Group => Wanted::Group,
                Ahead::End => Wanted::End,
                _ => Wanted::Comma,
            },
            FromStage::Key => match ahead {
                Ahead::End => Wanted::End,
                Ahead::Literal => Wanted::Literal,
                _ => Wanted::Name,
            },
            FromStage::Colon => Wanted::Colon,
            FromStage::Value => Wanted::Expression,
            FromStage::Field => if ahead == Ahead::End {
                Wanted::End
            } else {
                Wanted::Comma
            },
            FromStage::Conversion => if ahead == Ahead::End {
                Wanted::End
            } else {
                Wanted::Comma
            },
            FromStage::Refused => Wanted::Nothing,
        }
    }

    /// Whether the last conversion alone got a field behind those that it has.
    pub open spec fn gained(&self, before: &FromReader, key: FieldKey, value: String) -> bool {
        let last = before.conversions@.len() - 1;
        &&& self.conversions@.len() == before.conversions@.len()
        &&& self.conversions@.drop_last() == before.conversions@.drop_last()
        &&& self.conversions@[last].from_type == before.conversions@[last].from_type
        &&& self.conversions@[last].fields@ == before.conversions@[last].fields@.push((key, value))
    }

    pub fn accept_type(&mut self, from_type: String)
        requires
            old(self).wf(),
            old(self).stage == FromStage::Type,
        ensures
            final(self).wf(),
            final(self).stage == FromStage::Fields,
            final(self).conversions@.len() == old(self).conversions@.len() + 1,
            final(self).conversions@.drop_last() == old(self).conversions@,
            final(self).conversions@.last().from_type == from_type,
            final(self).conversions@.last().fields@.len() == 0,
    {
        self.conversions.push(Conversion { from_type, fields: Vec::new() });
        self.stage = FromStage::Fields;
        assert(self.conversions@.drop_last() =~= old(self).conversions@);
    }

    /// Goes on with the next type, or the next key within brackets.
    pub fn accept_comma(&mut self)
        requires
            old(self).wf(),
            old(self).stage == FromStage::Fields || old(self).stage == FromStage::Field || old(self).stage == FromStage::Conversion,
        ensures
            final(self).wf(),
            *final(self) == (FromReader {
                stage: if old(self).stage == FromStage::Field {
                    FromStage::Key
                } else {
                    FromStage::Type
                },
                ..*old(self)
            }),
    {
        self.stage = match self.stage {
            FromStage::Field => FromStage::Key,
            _ => FromStage::Type,
        };
    }

    pub fn enter_group(&mut self)
        requires
            old(self).wf(),
            old(self).stage == FromStage::Fields,
        ensures
            final(self).wf(),
            *final(self) == (FromReader { stage: FromStage::Key, ..*old(self) }),
    {
        self.stage = FromStage::Key;
    }

    pub fn leave_group(&mut self)
        requires
            old(self).wf(),
            old(self).stage == FromStage::Key || old(self).stage == FromStage::Field,
        ensures
            final(self).wf(),
            *final(self) == (FromReader { stage: FromStage::Conversion, ..*old(self) }),
    {
        self.stage = FromStage::Conversion;
    }

    /// Takes the key of a field. One that names no field stays as the last that is read.
    pub fn accept_key(&mut self, key: FieldKey)
        requires
            old(self).wf(),
            old(self).stage == FromStage::Key,
        ensures
            final(self).wf(),
            if names_field(key) {
                *final(self) == (FromReader { stage: FromStage::Colon, key: Some(key), ..*old(self) })
            } else {
                &&& final(self).stage == FromStage::Refused
                &&& exists|value: String| #[trigger] final(self).gained(old(self), key, value) && value@.len() == 0
            },
    {
        let ghost before = *self;
        let named: bool = match &key {
            FieldKey::Name(_) => true,
            FieldKey::Literal(Literal::Integer(_)) => true,
            _ => false,
        };
        if named {
            self.key = Some(key);
            self.stage = FromStage::Colon;
        } else {
            let last: usize = self.conversions.len() - 1;
            let value: String = String::new();
            let ghost empty = value;
            self.conversions[last].fields.push((key, value));
            self.stage = FromStage::Refused;
            proof {
                assert(self.conversions@.drop_last() =~= before.conversions@.drop_last());
                assert(self.gained(&before, key, empty));
            }
        }
    }

    pub fn accept_colon(&mut self)
        requires
            old(self).wf(),
            old(self).stage == FromStage::Colon,
        ensures
            final(self).wf(),
            *final(self) == (FromReader { stage: FromStage::Value, ..*old(self) }),
    {
        self.stage = FromStage::Value;
    }

    pub fn accept_value(&mut self, value: String)
        requires
            old(self).wf(),
            old(self).stage == FromStage::Value,
        ensures
            final(self).wf(),
            final(self).stage == FromStage::Field,
            final(self).gained(old(self), old(self).key->0, value),
    {
        let ghost before = *self;
        let last: usize = self.conversions.len() - 1;
        match self.key.take() {
            Some(key) => {
                self.conversions[last].fields.push((key, value));
            },
            None => {},
        }
        self.stage = FromStage::Field;
        proof {
            assert(self.conversions@.drop_last() =~= before.conversions@.drop_last());
        }
    }

    /// The list that was read.
    pub fn finish(self) -> (list: List)
        ensures
            list == List::Conversions(self.conversions),
    {
        List::Conversions(self.conversions)
    }
}

} // verus!
