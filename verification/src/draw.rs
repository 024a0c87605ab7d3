//! Data handed to the rendering backend.
use vstd::prelude::*;

verus! {

/// An update of the available texture data. The backend is responsible for uploading the provided
/// data to the GPU.
#[derive(Debug)]
pub enum Update {
    /// An existing texture is updated.
    TextureSubresource {
        /// The id of the texture that needs to be updated
        id: usize,
        /// Offset from the left top corner of the texture.
        offset: [u32; 2],
        /// Size of the rect described by `data`
        size: [u32; 2],
        /// The texel data of the updated rect. 4 elements per pixel.
        data: Vec<u8>,
    },
    /// A new texture is introduced.
    Texture {
        /// The id for the new texture. This is the id that will later be used to identify which
        /// texture the backend has to use whenever applicable.
        id: usize,
        /// Size of the texture
        size: [u32; 2],
        /// The texel data of the texture. 4 elements per pixel
        data: Vec<u8>,
        /// Whether the texture will be used as atlas. `true` means the texture might be updated
        /// later with `TextureSubresource`, while `false` means the texture is immutable.
        atlas: bool,
    },
}

/// A draw command. `R` is the rectangle type of a scissor.
#[derive(Debug, Clone, PartialEq)]
pub enum Command<R> {
    /// Do nothing. Appending a `Nop` to another command will flush the other command.
    Nop,
    /// Sets a new scissor rect, which is used to confine geometry to a certain area on screen.
    Clip {
        /// The scissor rectangle
        scissor: R,
    },
    /// Draw a list of vertices without an active texture
    Colored {
        /// Offset in vertices from the start of the vertex buffer
        offset: usize,
        /// The number of vertices to draw
        count: usize,
    },
    /// Draw a list of vertices with the active texture denoted by it's index
    Textured {
        /// Texture id to be used
        texture: usize,
        /// Offset in vertices from the start of the vertex buffer
        offset: usize,
        /// The number of vertices to draw
        count: usize,
    },
}

/// Whether appending `b` to `a` stays in the `usize` range: the end of `a`'s vertices is
/// computed when both draw vertices of the same kind (and texture), and the joined count when
/// they are adjacent.
pub open spec fn append_defined<R>(a: Command<R>, b: Command<R>) -> bool {
    match (a, b) {
        (Command::Colored { offset, count }, Command::Colored { offset: o2, count: c2 }) => {
            offset + count <= usize::MAX && (o2 == offset + count ==> count + c2 <= usize::MAX)
        },
        (Command::Textured { texture, offset, count }, Command::Textured { texture: t2, offset: o2, count: c2 }) => {
            texture == t2 ==> (offset + count <= usize::MAX && (o2 == offset + count ==> count + c2 <= usize::MAX))
        },
        _ => true,
    }
}

/// Appending `b` to `a`: the command `a` becomes, and what is handed back. A `Nop` takes the
/// appended command; a `Nop` appended is absorbed; vertices that directly follow those of a
/// command of the same kind (and texture) extend it; anything else is handed back.
pub open spec fn append_spec<R>(a: Command<R>, b: Command<R>) -> (Command<R>, Option<Command<R>>) {
    match a {
        Command::Nop => (b, None),
        _ => if b is Nop {
            (a, None)
        } else {
            match (a, b) {
                (Command::Colored { offset, count }, Command::Colored { offset: o2, count: c2 }) => if o2 == offset + count {
                    (Command::Colored { offset, count: (count + c2) as usize }, None)
                } else {
                    (a, Some(b))
                },
                (Command::Textured { texture, offset, count }, Command::Textured { texture: t2, offset: o2, count: c2 }) => if texture == t2 && o2 == offset + count {
                    (Command::Textured { texture, offset, count: (count + c2) as usize }, None)
                } else {
                    (a, Some(b))
                },
                _ => (a, Some(b)),
            }
        },
    }
}

impl<R> Command<R> {
    /// Append another `Command` to this `Command`. If the `Command`s can be chained together
    /// the `Command` is extended and `None` is returned, but if the `Command`s can not be chained
    /// the new command is returned again.
    pub fn append(&mut self, command: Command<R>) -> (r: Option<Command<R>>)
        requires
            append_defined(*old(self), command),
        ensures
            (*final(self), r) == append_spec(*old(self), command),
    {
        match self {
            Command::Nop => {
                *self = command;
                None
            },
            Command::Clip { .. } => match command {
                Command::Nop => None,
                other => Some(other),
            },
            Command::Colored { offset, count } => match command {
                Command::Nop => None,
                Command::Colored { offset: new_offset, count: new_count } => {
                    if new_offset == *offset + *count {
                        *count = *count + new_count;
                        None
                    } else {
                        Some(Command::Colored { offset: new_offset, count: new_count })
                    }
                },
                other => Some(other),
            },
            Command::Textured { texture, offset, count } => match command {
                Command::Nop => None,
                Command::Textured { texture: new_texture, offset: new_offset, count: new_count } => {
                    if *texture == new_texture && new_offset == *offset + *count {
                        *count = *count + new_count;
                        None
                    } else {
                        Some(Command::Textured { texture: new_texture, offset: new_offset, count: new_count })
                    }
                },
                other => Some(other),
            },
        }
    }
}

} // verus!
