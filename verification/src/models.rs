//! Catalog of whole-image embedding models for scene clustering.

use vstd::prelude::*;
use crate::text::contains_seq;
use vstd::string::StringExecFns;
use crate::text::str_eq;

verus! {

/// What kind of model a catalog entry is.
#[derive(Clone, Copy, Debug, PartialEq, Eq, Structural)]
pub enum ModelType {
    ImageEmbedding,
}

/// Where a model's weights come from.
#[derive(Clone, Debug)]
pub enum ModelProvider {
    /// Fetched directly; the payload is the download hint or URL.
    Direct { url: String },
}

/// A model catalog entry.
#[derive(Clone, Debug)]
pub struct ModelInfo {
    pub id: String,
    pub name: String,
    pub model_type: ModelType,
    pub size_bytes: u64,
    pub provider: ModelProvider,
    pub filename: String,
    pub downloaded: bool,
    pub description: Option<String>,
}

/// Which embedder backend to run.
#[derive(Clone, Copy, Debug, PartialEq, Eq, Structural)]
pub enum ImageEmbeddingBackend {
    /// OpenCLIP ViT-B/32 vision tower.
    OpenClipVitB32,
    /// DINOv2 ViT-B/14.
    DinoV2VitB14,
    /// Fixed RGB histogram fingerprint, no ONNX weights.
    HistogramBaseline,
}

pub open spec fn id_spec(b: ImageEmbeddingBackend) -> Seq<char> {
    match b {
        ImageEmbeddingBackend::OpenClipVitB32 => "openclip-vit-b-32"@,
        ImageEmbeddingBackend::DinoV2VitB14 => "dinov2-vit-b-14"@,
        ImageEmbeddingBackend::HistogramBaseline => "histogram-baseline"@,
    }
}

pub open spec fn display_name_spec(b: ImageEmbeddingBackend) -> Seq<char> {
    match b {
        ImageEmbeddingBackend::OpenClipVitB32 => "OpenCLIP ViT-B/32"@,
        ImageEmbeddingBackend::DinoV2VitB14 => "DINOv2 ViT-B/14"@,
        ImageEmbeddingBackend::HistogramBaseline => "Histogram baseline (no ML)"@,
    }
}

pub open spec fn filename_spec(b: ImageEmbeddingBackend) -> Seq<char> {
    match b {
        ImageEmbeddingBackend::OpenClipVitB32 => "openclip-vit-b-32.onnx"@,
        ImageEmbeddingBackend::DinoV2VitB14 => "dinov2-vit-b-14.onnx"@,
        ImageEmbeddingBackend::HistogramBaseline => ""@,
    }
}

pub open spec fn dims_spec(b: ImageEmbeddingBackend) -> usize {
    match b {
        ImageEmbeddingBackend::OpenClipVitB32 => 512,
        ImageEmbeddingBackend::DinoV2VitB14 => 768,
        ImageEmbeddingBackend::HistogramBaseline => 192,
    }
}

pub open spec fn input_size_spec(b: ImageEmbeddingBackend) -> u32 {
    match b {
        ImageEmbeddingBackend::HistogramBaseline => 128,
        _ => 224,
    }
}

pub open spec fn download_hint_spec(b: ImageEmbeddingBackend) -> Option<Seq<char>> {
    match b {
        ImageEmbeddingBackend::OpenClipVitB32 => Some(
            "Export OpenCLIP ViT-B-32 vision tower to ONNX and place as openclip-vit-b-32.onnx"@,
        ),
        ImageEmbeddingBackend::DinoV2VitB14 => Some(
            "Export DINOv2 ViT-B/14 to ONNX and place as dinov2-vit-b-14.onnx"@,
        ),
        ImageEmbeddingBackend::HistogramBaseline => None,
    }
}

pub open spec fn size_bytes_spec(b: ImageEmbeddingBackend) -> nat {
    match b {
        ImageEmbeddingBackend::OpenClipVitB32 => 350 * 1024 * 1024,
        ImageEmbeddingBackend::DinoV2VitB14 => 330 * 1024 * 1024,
        ImageEmbeddingBackend::HistogramBaseline => 0,
    }
}

pub open spec fn description_spec(b: ImageEmbeddingBackend) -> Seq<char> {
    match b {
        ImageEmbeddingBackend::OpenClipVitB32 => "Best default for scene clusters + optional text query. GPU via ORT CUDA."@,
        ImageEmbeddingBackend::DinoV2VitB14 => "Highest pure-vision clustering quality. GPU via ORT CUDA."@,
        ImageEmbeddingBackend::HistogramBaseline => "No weights; structural RGB histogram for pipeline/eval baseline only."@,
    }
}

/// The backend an identifier or alias names.
pub open spec fn from_id_spec(id: Seq<char>) -> Option<ImageEmbeddingBackend> {
    if id == "openclip-vit-b-32"@ || id == "openclip"@ || id == "clip"@ {
        Some(ImageEmbeddingBackend::OpenClipVitB32)
    } else if id == "dinov2-vit-b-14"@ || id == "dinov2"@ || id == "dino"@ {
        Some(ImageEmbeddingBackend::DinoV2VitB14)
    } else if id == "histogram-baseline"@ || id == "histogram"@ || id == "baseline"@ {
        Some(ImageEmbeddingBackend::HistogramBaseline)
    } else {
        None
    }
}

impl ImageEmbeddingBackend {
    /// The stable identifier of the backend.
    pub fn id(self) -> (r: &'static str)
        ensures
            r@ == id_spec(self),
    {
        match self {
            ImageEmbeddingBackend::OpenClipVitB32 => "openclip-vit-b-32",
            ImageEmbeddingBackend::DinoV2VitB14 => "dinov2-vit-b-14",
            ImageEmbeddingBackend::HistogramBaseline => "histogram-baseline",
        }
    }

    /// The human-readable name of the backend.
    pub fn display_name(self) -> (r: &'static str)
        ensures
            r@ == display_name_spec(self),
    {
        match self {
            ImageEmbeddingBackend::OpenClipVitB32 => "OpenCLIP ViT-B/32",
            ImageEmbeddingBackend::DinoV2VitB14 => "DINOv2 ViT-B/14",
            ImageEmbeddingBackend::HistogramBaseline => "Histogram baseline (no ML)",
        }
    }

    /// The ONNX file of the backend; empty when it has no weights.
    pub fn filename(self) -> (r: &'static str)
        ensures
            r@ == filename_spec(self),
    {
        match self {
            ImageEmbeddingBackend::OpenClipVitB32 => "openclip-vit-b-32.onnx",
            ImageEmbeddingBackend::DinoV2VitB14 => "dinov2-vit-b-14.onnx",
            ImageEmbeddingBackend::HistogramBaseline => "",
        }
    }

    /// The embedding dimensionality after pooling.
    pub fn dims(self) -> (r: usize)
        ensures
            r == dims_spec(self),
    {
        match self {
            ImageEmbeddingBackend::OpenClipVitB32 => 512,
            ImageEmbeddingBackend::DinoV2VitB14 => 768,
            ImageEmbeddingBackend::HistogramBaseline => 192,
        }
    }

    /// The square input size the backbone expects.
    pub fn input_size(self) -> (r: u32)
        ensures
            r == input_size_spec(self),
    {
        match self {
            ImageEmbeddingBackend::OpenClipVitB32 => 224,
            ImageEmbeddingBackend::DinoV2VitB14 => 224,
            ImageEmbeddingBackend::HistogramBaseline => 128,
        }
    }

    /// How to obtain the backend's ONNX export, if it needs one.
    pub fn download_hint(self) -> (r: Option<&'static str>)
        ensures
            match r {
                Some(s) => download_hint_spec(self) == Some(s@),
                None => download_hint_spec(self) is None,
            },
    {
        match self {
            ImageEmbeddingBackend::OpenClipVitB32 => Some(
                "Export OpenCLIP ViT-B-32 vision tower to ONNX and place as openclip-vit-b-32.onnx",
            ),
            ImageEmbeddingBackend::DinoV2VitB14 => Some(
                "Export DINOv2 ViT-B/14 to ONNX and place as dinov2-vit-b-14.onnx",
            ),
            ImageEmbeddingBackend::HistogramBaseline => None,
        }
    }

    /// Whether the backend runs an ONNX model.
    pub fn requires_onnx(self) -> (r: bool)
        ensures
            r == (self != ImageEmbeddingBackend::HistogramBaseline),
    {
        !matches!(self, ImageEmbeddingBackend::HistogramBaseline)
    }

    /// Every backend, in catalog order.
    pub fn all() -> (r: Vec<Self>)
        ensures
            r@ == seq![
                ImageEmbeddingBackend::OpenClipVitB32,
                ImageEmbeddingBackend::DinoV2VitB14,
                ImageEmbeddingBackend::HistogramBaseline,
            ],
    {
        let r = vec![
            ImageEmbeddingBackend::OpenClipVitB32,
            ImageEmbeddingBackend::DinoV2VitB14,
            ImageEmbeddingBackend::HistogramBaseline,
        ];
        assert(r@ =~= seq![
            ImageEmbeddingBackend::OpenClipVitB32,
            ImageEmbeddingBackend::DinoV2VitB14,
            ImageEmbeddingBackend::HistogramBaseline,
        ]);
        r
    }

    /// The default backend for production quality.
    pub fn preferred() -> (r: Self)
        ensures
            r == ImageEmbeddingBackend::OpenClipVitB32,
    {
        ImageEmbeddingBackend::OpenClipVitB32
    }

    /// The backend an identifier or one of its aliases names.
    pub fn from_id(id: &str) -> (r: Option<Self>)
        ensures
            r == from_id_spec(id@),
    {
        if str_eq(id, "openclip-vit-b-32") || str_eq(id, "openclip") || str_eq(id, "clip") {
            Some(ImageEmbeddingBackend::OpenClipVitB32)
        } else if str_eq(id, "dinov2-vit-b-14") || str_eq(id, "dinov2") || str_eq(id, "dino") {
            Some(ImageEmbeddingBackend::DinoV2VitB14)
        } else if str_eq(id, "histogram-baseline") || str_eq(id, "histogram") || str_eq(id, "baseline") {
            Some(ImageEmbeddingBackend::HistogramBaseline)
        } else {
            None
        }
    }

    /// The catalog entry of the backend.
    pub fn to_model_info(self, downloaded: bool) -> (r: ModelInfo)
        ensures
            r.id@ == id_spec(self),
            r.name@ == display_name_spec(self),
            r.model_type == ModelType::ImageEmbedding,
            r.size_bytes == size_bytes_spec(self),
            r.provider matches ModelProvider::Direct { url } && url@ == match download_hint_spec(self) {
                Some(h) => h,
                None => ""@,
            },
            r.filename@ == filename_spec(self),
            r.downloaded == downloaded,
            r.description matches Some(d) && d@ == description_spec(self),
    {
        let size_bytes: u64 = match self {
            ImageEmbeddingBackend::OpenClipVitB32 => 350 * 1024 * 1024,
            ImageEmbeddingBackend::DinoV2VitB14 => 330 * 1024 * 1024,
            ImageEmbeddingBackend::HistogramBaseline => 0,
        };
        let hint = match self.download_hint() {
            Some(h) => h,
            None => "",
        };
        let description = match self {
            ImageEmbeddingBackend::OpenClipVitB32 => "Best default for scene clusters + optional text query. GPU via ORT CUDA.",
            ImageEmbeddingBackend::DinoV2VitB14 => "Highest pure-vision clustering quality. GPU via ORT CUDA.",
            ImageEmbeddingBackend::HistogramBaseline => "No weights; structural RGB histogram for pipeline/eval baseline only.",
        };
        ModelInfo {
            id: String::from_str(self.id()),
            name: String::from_str(self.display_name()),
            model_type: ModelType::ImageEmbedding,
            size_bytes,
            provider: ModelProvider::Direct { url: String::from_str(hint) },
            filename: String::from_str(self.filename()),
            downloaded,
            description: Some(String::from_str(description)),
        }
    }
}

/// A backend resolved against a data directory: where its weights are and
/// whether they are there.
#[derive(Clone, Debug)]
pub struct ImageEmbeddingModelSpec {
    pub backend: ImageEmbeddingBackend,
    pub path: String,
    pub available: bool,
}

impl ImageEmbeddingModelSpec {
    /// The spec of `backend`, given the path its weights would have and whether
    /// a file is there: a backend without ONNX weights has an empty path and is
    /// always available; another has that path and is available when the file is.
    pub fn resolve(backend: ImageEmbeddingBackend, weights_path: String, weights_present: bool) -> (r: Self)
        ensures
            r.backend == backend,
            backend == ImageEmbeddingBackend::HistogramBaseline ==> r.path@.len() == 0 && r.available,
            backend != ImageEmbeddingBackend::HistogramBaseline ==> r.path@ == weights_path@
                && r.available == weights_present,
    {
        if !backend.requires_onnx() {
            return ImageEmbeddingModelSpec { backend, path: String::new(), available: true };
        }
        ImageEmbeddingModelSpec { backend, path: weights_path, available: weights_present }
    }
}

/// The backend an override names, else the preferred one.
pub fn backend_from_override(value: Option<&str>) -> (r: ImageEmbeddingBackend)
    ensures
        r == match value {
            Some(v) => match from_id_spec(v@) {
                Some(b) => b,
                None => ImageEmbeddingBackend::OpenClipVitB32,
            },
            None => ImageEmbeddingBackend::OpenClipVitB32,
        },
{
    match value {
        Some(v) => match ImageEmbeddingBackend::from_id(v) {
            Some(b) => b,
            None => ImageEmbeddingBackend::preferred(),
        },
        None => ImageEmbeddingBackend::preferred(),
    }
}


/// Every backend's identifier names it again: `from_id(b.id()) == Some(b)`.
pub proof fn law_backend_id_round_trip(b: ImageEmbeddingBackend)
    ensures
        from_id_spec(id_spec(b)) == Some(b),
{
    reveal_strlit("openclip-vit-b-32");
    reveal_strlit("openclip");
    reveal_strlit("clip");
    reveal_strlit("dinov2-vit-b-14");
    reveal_strlit("dinov2");
    reveal_strlit("dino");
    reveal_strlit("histogram-baseline");
    reveal_strlit("histogram");
    reveal_strlit("baseline");
    match b {
        ImageEmbeddingBackend::OpenClipVitB32 => {},
        ImageEmbeddingBackend::DinoV2VitB14 => {
            assert("dinov2-vit-b-14"@.len() != "openclip-vit-b-32"@.len());
            assert("dinov2-vit-b-14"@[0] != "openclip"@[0]);
            assert("dinov2-vit-b-14"@[0] != "clip"@[0]);
        },
        ImageEmbeddingBackend::HistogramBaseline => {
            assert("histogram-baseline"@[0] != "openclip-vit-b-32"@[0]);
            assert("histogram-baseline"@[0] != "openclip"@[0]);
            assert("histogram-baseline"@[0] != "clip"@[0]);
            assert("histogram-baseline"@[0] != "dinov2-vit-b-14"@[0]);
            assert("histogram-baseline"@[0] != "dinov2"@[0]);
            assert("histogram-baseline"@[0] != "dino"@[0]);
        },
    }
}

/// A backend needs ONNX weights exactly when it has a weights file and a
/// download hint; the file is its identifier with `.onnx`, and the hint names
/// that file. Only the histogram baseline has none.
pub proof fn law_backend_weights_file(b: ImageEmbeddingBackend)
    ensures
        (b != ImageEmbeddingBackend::HistogramBaseline) == (filename_spec(b).len() > 0),
        (filename_spec(b).len() > 0) == (download_hint_spec(b) is Some),
        b != ImageEmbeddingBackend::HistogramBaseline ==> filename_spec(b) == id_spec(b) + ".onnx"@,
        b != ImageEmbeddingBackend::HistogramBaseline ==> contains_seq(download_hint_spec(b)->Some_0, filename_spec(b)),
{
    reveal_strlit("openclip-vit-b-32.onnx");
    reveal_strlit("dinov2-vit-b-14.onnx");
    reveal_strlit("");
    reveal_strlit("openclip-vit-b-32");
    reveal_strlit("dinov2-vit-b-14");
    reveal_strlit(".onnx");
    reveal_strlit("Export OpenCLIP ViT-B-32 vision tower to ONNX and place as openclip-vit-b-32.onnx");
    reveal_strlit("Export DINOv2 ViT-B/14 to ONNX and place as dinov2-vit-b-14.onnx");
    match b {
        ImageEmbeddingBackend::OpenClipVitB32 => {
            assert(filename_spec(b) =~= id_spec(b) + ".onnx"@);
            let h = download_hint_spec(b)->Some_0;
            let f = filename_spec(b);
            let i = h.len() - f.len();
            assert(h.subrange(i, i + f.len()) =~= f);
        },
        ImageEmbeddingBackend::DinoV2VitB14 => {
            assert(filename_spec(b) =~= id_spec(b) + ".onnx"@);
            let h = download_hint_spec(b)->Some_0;
            let f = filename_spec(b);
            let i = h.len() - f.len();
            assert(h.subrange(i, i + f.len()) =~= f);
        },
        ImageEmbeddingBackend::HistogramBaseline => {},
    }
}

} // verus!
