//! Where the model is kept and where it is fetched from.
//!
//! Looking into the cache and downloading are left to the caller; this module only knows the
//! names.

use vstd::prelude::*;
use vstd::string::StringExecFns;

verus! {

/// The names under which the model is kept and fetched.
pub struct ModelManager {
    /// Directory in which the model is kept once it was fetched.
    pub cache_dir: String,
    /// Address below which the model is published.
    pub base_url: String,
    /// Name of the model's file, in the cache and at its source.
    pub model_filename: String,
}

/// The address below which the model is published, unless another is set.
pub open spec fn default_base_url() -> Seq<char> {
    "https://huggingface.co/janakhpon/monocr/resolve/main"@
}

/// The name of the model's file, unless another is set.
pub open spec fn default_model_filename() -> Seq<char> {
    "monocr.onnx"@
}

/// The part of the address that stands between the base and the file's name.
pub open spec fn model_folder() -> Seq<char> {
    "/onnx/"@
}

impl ModelManager {
    /// The names for a model kept in `cache_dir` and fetched from its default source.
    pub fn new(cache_dir: &str) -> (manager: Self)
        ensures
            manager.cache_dir@ == cache_dir@,
            manager.base_url@ == default_base_url(),
            manager.model_filename@ == default_model_filename(),
    {
        ModelManager {
            cache_dir: String::from_str(cache_dir),
            base_url: String::from_str("https://huggingface.co/janakhpon/monocr/resolve/main"),
            model_filename: String::from_str("monocr.onnx"),
        }
    }

    /// The address from which the model is fetched: the base address, the model folder and the
    /// file's name.
    pub fn model_url(&self) -> (url: String)
        ensures
            url@ == self.base_url@ + model_folder() + self.model_filename@,
    {
        let mut url = self.base_url.clone();
        url.append("/onnx/");
        url.append(self.model_filename.as_str());
        url
    }
}

} // verus!
