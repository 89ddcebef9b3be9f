//! Captured frames in the pixel formats that capture backends deliver.
use vstd::prelude::*;

verus! {

/// A captured picture: its size as the backend reports it, and its packed pixels.
pub struct Picture {
    pub width: i32,
    pub height: i32,
    pub data: Vec<u8>,
}

/// A captured frame, by pixel format.
pub enum Frame {
    BGRA(Picture),
    BGRx(Picture),
    RGBx(Picture),
    XBGR(Picture),
    BGR0(Picture),
    RGB(Picture),
    /// Planar frames hold no packed pixels and are not shown.
    YUVFrame,
}

/// How a packed pixel is laid out: its size in bytes and the place of each channel.
pub struct PixelLayout {
    pub size: int,
    pub red: int,
    pub green: int,
    pub blue: int,
}

impl PixelLayout {
    /// The place of channel 0 (red), 1 (green) or 2 (blue).
    pub open spec fn channel(self, c: int) -> int {
        if c == 0 {
            self.red
        } else if c == 1 {
            self.green
        } else {
            self.blue
        }
    }
}

impl Frame {
    /// The packed picture, for the formats that have one.
    pub open spec fn picture(self) -> Option<Picture> {
        match self {
            Frame::BGRA(p) => Some(p),
            Frame::BGRx(p) => Some(p),
            Frame::RGBx(p) => Some(p),
            Frame::XBGR(p) => Some(p),
            Frame::BGR0(p) => Some(p),
            Frame::RGB(p) => Some(p),
            Frame::YUVFrame => None,
        }
    }

    /// The layout of the frame's pixels.
    pub open spec fn layout(self) -> PixelLayout {
        match self {
            Frame::BGRA(_) => PixelLayout { size: 4, red: 2, green: 1, blue: 0 },
            Frame::BGRx(_) => PixelLayout { size: 4, red: 2, green: 1, blue: 0 },
            Frame::RGBx(_) => PixelLayout { size: 4, red: 0, green: 1, blue: 2 },
            Frame::XBGR(_) => PixelLayout { size: 4, red: 3, green: 2, blue: 1 },
            Frame::BGR0(_) => PixelLayout { size: 3, red: 2, green: 1, blue: 0 },
            Frame::RGB(_) => PixelLayout { size: 3, red: 0, green: 1, blue: 2 },
            Frame::YUVFrame => PixelLayout { size: 3, red: 0, green: 1, blue: 2 },
        }
    }

    /// The frame holds packed pixels and has an area.
    pub open spec fn is_readable(self) -> bool {
        self.picture() matches Some(p) && p.width > 0 && p.height > 0
    }
}

/// The width, height, bytes, pixel size and places of red, green and blue of a frame,
/// or `None` for a planar frame or one without area.
pub fn frame_parts(frame: &Frame) -> (parts: Option<(usize, usize, &[u8], usize, [usize; 3])>)
    ensures
        parts is Some <==> frame.is_readable(),
        parts matches Some((w, h, data, px, rgb)) ==> {
            let picture = frame.picture()->0;
            let layout = frame.layout();
            &&& w == picture.width
            &&& h == picture.height
            &&& data@ == picture.data@
            &&& px == layout.size
            &&& rgb[0] == layout.red
            &&& rgb[1] == layout.green
            &&& rgb[2] == layout.blue
        },
{
    let (picture, px, rgb): (&Picture, usize, [usize; 3]) = match frame {
        Frame::BGRA(p) => (p, 4, [2, 1, 0]),
        Frame::BGRx(p) => (p, 4, [2, 1, 0]),
        Frame::RGBx(p) => (p, 4, [0, 1, 2]),
        Frame::XBGR(p) => (p, 4, [3, 2, 1]),
        Frame::BGR0(p) => (p, 3, [2, 1, 0]),
        Frame::RGB(p) => (p, 3, [0, 1, 2]),
        Frame::YUVFrame => return None,
    };
    if picture.width <= 0 || picture.height <= 0 {
        return None;
    }
    Some((picture.width as usize, picture.height as usize, picture.data.as_slice(), px, rgb))
}

} // verus!
