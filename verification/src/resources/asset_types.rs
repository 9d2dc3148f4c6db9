//! Texture and binary data resources.

use crate::error::{EcsError, Result};
use crate::resources::Resource;
use crate::system::type_id_of;
use std::any::TypeId;
use vstd::prelude::*;

verus! {

/// Texture resource
#[derive(Clone, Debug)]
pub struct TextureResource {
    path: String,
    width: u32,
    height: u32,
    data: Vec<u8>,
}

impl TextureResource {
    /// Path the texture was loaded from.
    pub closed spec fn spec_path(&self) -> Seq<char> {
        self.path@
    }

    /// Width in pixels.
    pub closed spec fn spec_width(&self) -> u32 {
        self.width
    }

    /// Height in pixels.
    pub closed spec fn spec_height(&self) -> u32 {
        self.height
    }

    /// Pixel bytes.
    pub closed spec fn spec_data(&self) -> Seq<u8> {
        self.data@
    }

    pub fn new(path: String, width: u32, height: u32, data: Vec<u8>) -> (t: Self)
        ensures
            t.spec_path() == path@,
            t.spec_width() == width,
            t.spec_height() == height,
            t.spec_data() == data@,
    {
        TextureResource { path, width, height, data }
    }

    pub fn width(&self) -> (r: u32)
        ensures
            r == self.spec_width(),
    {
        self.width
    }

    pub fn height(&self) -> (r: u32)
        ensures
            r == self.spec_height(),
    {
        self.height
    }

    pub fn data(&self) -> (r: &[u8])
        ensures
            r@ == self.spec_data(),
    {
        self.data.as_slice()
    }
}

impl Resource for TextureResource {
    fn get_path(&self) -> (r: &str)
        ensures
            r@ == self.spec_path(),
    {
        self.path.as_str()
    }

    fn get_size(&self) -> (r: usize)
        ensures
            r == self.spec_data().len(),
    {
        self.data.len()
    }

    fn get_type_name(&self) -> (r: &str)
        ensures
            r@ == "Texture"@,
    {
        "Texture"
    }

    fn get_type_id(&self) -> TypeId {
        type_id_of::<Self>()
    }

    fn unload(&mut self) -> (r: Result<()>)
        ensures
            r is Ok,
            final(self).spec_data() == Seq::<u8>::empty(),
            final(self).spec_path() == old(self).spec_path(),
            final(self).spec_width() == old(self).spec_width(),
            final(self).spec_height() == old(self).spec_height(),
    {
        self.data.clear();
        Ok(())
    }

    fn reload(&mut self) -> (r: Result<()>)
        ensures
            r is Ok,
            *final(self) == *old(self),
    {
        Ok(())
    }

    fn is_valid(&self) -> (r: bool)
        ensures
            r == (self.spec_data().len() > 0),
    {
        !self.data.is_empty()
    }
}

/// Data resource (generic binary data)
#[derive(Clone, Debug)]
pub struct DataResource {
    path: String,
    data: Vec<u8>,
}

impl DataResource {
    /// Path the data was loaded from.
    pub closed spec fn spec_path(&self) -> Seq<char> {
        self.path@
    }

    /// The bytes.
    pub closed spec fn spec_data(&self) -> Seq<u8> {
        self.data@
    }

    pub fn new(path: String, data: Vec<u8>) -> (d: Self)
        ensures
            d.spec_path() == path@,
            d.spec_data() == data@,
    {
        DataResource { path, data }
    }

    pub fn data(&self) -> (r: &[u8])
        ensures
            r@ == self.spec_data(),
    {
        self.data.as_slice()
    }

    pub fn data_mut(&mut self) -> (r: &mut Vec<u8>)
        ensures
            r@ == old(self).spec_data(),
            final(self).spec_data() == final(r)@,
            final(self).spec_path() == old(self).spec_path(),
    {
        &mut self.data
    }
}

impl Resource for DataResource {
    fn get_path(&self) -> (r: &str)
        ensures
            r@ == self.spec_path(),
    {
        self.path.as_str()
    }

    fn get_size(&self) -> (r: usize)
        ensures
            r == self.spec_data().len(),
    {
        self.data.len()
    }

    fn get_type_name(&self) -> (r: &str)
        ensures
            r@ == "Data"@,
    {
        "Data"
    }

    fn get_type_id(&self) -> TypeId {
        type_id_of::<Self>()
    }

    fn unload(&mut self) -> (r: Result<()>)
        ensures
            r is Ok,
            final(self).spec_data() == Seq::<u8>::empty(),
            final(self).spec_path() == old(self).spec_path(),
    {
        self.data.clear();
        Ok(())
    }

    fn reload(&mut self) -> (r: Result<()>)
        ensures
            r is Ok,
            *final(self) == *old(self),
    {
        Ok(())
    }

    fn is_valid(&self) -> (r: bool)
        ensures
            r == (self.spec_data().len() > 0),
    {
        !self.data.is_empty()
    }
}

} // verus!
