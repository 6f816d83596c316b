//! The 3D text example's editable text, font choice and refresh flag.
use vstd::prelude::*;

verus! {

/// `u32` values that are Unicode scalar values, the values `char` can hold.
pub open spec fn is_scalar(v: u32) -> bool {
    v < 0xd800 || (0xe000 <= v && v <= 0x10_ffff)
}

/// `char::from_u32`: the character with this scalar value, or `None` for a surrogate or a
/// value past `0x10FFFF`.
#[verifier::external_body]
fn char_from_u32(v: u32) -> (c: Option<char>)
    ensures
        c is Some <==> is_scalar(v),
        c matches Some(ch) ==> ch == v as char,
{
    char::from_u32(v)
}

/// The text of the example, whether the next key replaces it, and whether its geometry is
/// stale.
pub struct TextField {
    pub text: Vec<char>,
    pub first_letter: bool,
    pub dirty: bool,
}

/// The mathematical value of the text field.
pub struct TextFieldModel {
    pub text: Seq<char>,
    pub first_letter: bool,
    pub dirty: bool,
}

impl View for TextField {
    type V = TextFieldModel;

    open spec fn view(&self) -> TextFieldModel {
        TextFieldModel { text: self.text@, first_letter: self.first_letter, dirty: self.dirty }
    }
}

/// The field after a key event: key-press events carry `100000 + which` and append that
/// character unless it is a backspace or no character; key-down events first clear the
/// initial text on the first key, and a backspace (code 8) removes the last character.
/// Releases change nothing.
pub open spec fn after_key(m: TextFieldModel, code: u32, down: bool) -> TextFieldModel {
    if !down {
        m
    } else if code >= 100000 {
        let which = (code - 100000) as u32;
        if which == 8 {
            m
        } else {
            TextFieldModel {
                text: if is_scalar(which) {
                    m.text.push(which as char)
                } else {
                    m.text
                },
                dirty: true,
                ..m
            }
        }
    } else {
        let start = if m.first_letter {
            Seq::<char>::empty()
        } else {
            m.text
        };
        TextFieldModel {
            text: if code == 8 && start.len() > 0 {
                start.drop_last()
            } else {
                start
            },
            first_letter: false,
            dirty: m.dirty || code == 8,
        }
    }
}

impl TextField {
    /// A key event, as `after_key` describes it.
    pub fn key(&mut self, code: u32, down: bool)
        ensures
            final(self)@ == after_key(old(self)@, code, down),
    {
        if !down {
            return ;
        }
        if code >= 100000 {
            let which = code - 100000;
            if which != 8 {
                match char_from_u32(which) {
                    Some(c) => {
                        self.text.push(c);
                    },
                    None => {},
                }
                self.dirty = true;
            }
        } else {
            if self.first_letter {
                self.first_letter = false;
                self.text.clear();
            }
            if code == 8 {
                self.text.pop();
                self.dirty = true;
            }
        }
        assert(self@.text =~= after_key(old(self)@, code, down).text);
    }
}

/// Typing a character and then erasing it with backspace gives the text back, once the
/// initial text has been replaced.
pub proof fn lemma_type_then_erase(m: TextFieldModel, c: u32)
    requires
        !m.first_letter,
        is_scalar(c),
        c != 8,
        c <= u32::MAX - 100000,
    ensures
        after_key(after_key(m, (c + 100000) as u32, true), 8, true).text == m.text,
{
    let typed = after_key(m, (c + 100000) as u32, true);
    assert(typed.text == m.text.push(c as char));
    assert(typed.text.drop_last() =~= m.text);
}

/// The faces the example can select: five families, regular and bold.
pub const FONT_FAMILIES: usize = 5;

/// The example's font, weight and bevel choice.
pub struct TextOptions {
    pub font: usize,
    pub bold: bool,
    pub bevel: bool,
    pub dirty: bool,
}

/// What a parameter of the text example asks for.
#[derive(Clone, Copy, PartialEq, Eq, Debug)]
pub enum TextParameter {
    /// A new light color from the next random sample.
    Color,
    /// The options changed.
    Changed,
}

impl TextOptions {
    /// The typeface file for the current choice: the family cycles through the five, the
    /// regular face before the bold one.
    pub fn face(&self) -> (i: usize)
        ensures
            i == (self.font % 5) * 2 + (if self.bold {
                1usize
            } else {
                0usize
            }),
            i < 10,
    {
        (self.font % FONT_FAMILIES) * 2 + if self.bold {
            1
        } else {
            0
        }
    }

    /// A button of the example: 0 asks for a new color, 1 the next family, 2 toggles bold
    /// and 3 the bevel; all but the color mark the text stale. Other indices are refused.
    pub fn parameter(&mut self, index: usize) -> (r: Result<TextParameter, ()>)
        requires
            old(self).font < usize::MAX,
        ensures
            index > 3 ==> r is Err && *final(self) == *old(self),
            index == 0 ==> r == Ok::<_, ()>(TextParameter::Color) && *final(self) == *old(self),
            index == 1 ==> r == Ok::<_, ()>(TextParameter::Changed) && *final(self) == (TextOptions {
                font: (old(self).font + 1) as usize,
                dirty: true,
                ..*old(self)
            }),
            index == 2 ==> r == Ok::<_, ()>(TextParameter::Changed) && *final(self) == (TextOptions {
                bold: !old(self).bold,
                dirty: true,
                ..*old(self)
            }),
            index == 3 ==> r == Ok::<_, ()>(TextParameter::Changed) && *final(self) == (TextOptions {
                bevel: !old(self).bevel,
                dirty: true,
                ..*old(self)
            }),
    {
        if index > 3 {
            return Err(());
        }
        if index == 0 {
            return Ok(TextParameter::Color);
        }
        if index == 1 {
            self.font = self.font + 1;
        } else if index == 2 {
            self.bold = !self.bold;
        } else {
            self.bevel = !self.bevel;
        }
        self.dirty = true;
        Ok(TextParameter::Changed)
    }
}

/// The clipping example's switches: local planes, their shadows, the plane visualization
/// and the global planes.
pub struct ClippingToggles {
    pub local: bool,
    pub shadows: bool,
    pub visualize: bool,
    pub global: bool,
}

impl ClippingToggles {
    /// Sets switch `index` to `on`: turning the local planes off also hides their
    /// visualization, which can only be shown while they are on. Indices past 3 are refused.
    pub fn set(&mut self, index: usize, on: bool) -> (r: Result<(), ()>)
        ensures
            index > 3 ==> r is Err && *final(self) == *old(self),
            index <= 3 ==> r is Ok,
            index == 0 ==> *final(self) == (ClippingToggles {
                local: on,
                visualize: old(self).visualize && on,
                ..*old(self)
            }),
            index == 1 ==> *final(self) == (ClippingToggles { shadows: on, ..*old(self) }),
            index == 2 ==> *final(self) == (ClippingToggles {
                visualize: if old(self).local {
                    on
                } else {
                    old(self).visualize
                },
                ..*old(self)
            }),
            index == 3 ==> *final(self) == (ClippingToggles { global: on, ..*old(self) }),
            (old(self).visualize ==> old(self).local) ==> (final(self).visualize
                ==> final(self).local),
    {
        if index > 3 {
            return Err(());
        }
        if index == 0 {
            self.local = on;
            if !on {
                self.visualize = false;
            }
        } else if index == 1 {
            self.shadows = on;
        } else if index == 2 {
            if self.local {
                self.visualize = on;
            }
        } else {
            self.global = on;
        }
        Ok(())
    }
}

} // verus!
