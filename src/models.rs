//! The machine-learning models the application needs, and which of them are
//! installed. Looking at the disk happens outside the library: it hands in
//! the relative paths of the files present in the models directory.
use vstd::prelude::*;
use crate::text::{chars_of, str_eq, string_of};

verus! {

/// A model the application downloads.
#[derive(Debug)]
pub struct ModelInfo {
    pub id: String,
    pub name: String,
    pub url: String,
    pub size_bytes: u64,
    pub filename: String,
    pub is_archive: bool,
}

/// Whether a model is installed.
#[derive(Debug)]
pub struct ModelStatus {
    pub id: String,
    pub name: String,
    pub installed: bool,
    pub size_bytes: u64,
}

/// Number of required models.
pub const MODEL_COUNT: usize = 10;

/// Identifier of the `i`-th required model.
pub open spec fn model_id(i: int) -> Seq<char> {
    if i == 0 {
        "silero-vad"@
    } else if i == 1 {
        "sensevoice"@
    } else if i == 2 {
        "smart-turn-v3"@
    } else if i == 3 {
        "gliner-model"@
    } else if i == 4 {
        "gliner-tokenizer"@
    } else if i == 5 {
        "embedding-model"@
    } else if i == 6 {
        "embedding-model-data"@
    } else if i == 7 {
        "embedding-tokenizer"@
    } else if i == 8 {
        "speaker-segmentation"@
    } else if i == 9 {
        "speaker-embedding"@
    } else {
        Seq::empty()
    }
}

/// File name of the `i`-th required model.
pub open spec fn model_file(i: int) -> Seq<char> {
    if i == 0 {
        "silero_vad.onnx"@
    } else if i == 1 {
        "sherpa-onnx-sense-voice-zh-en-ja-ko-yue-2024-07-17.tar.bz2"@
    } else if i == 2 {
        "smart-turn-v3.onnx"@
    } else if i == 3 {
        "gliner-model.onnx"@
    } else if i == 4 {
        "gliner-tokenizer.json"@
    } else if i == 5 {
        "model_q4.onnx"@
    } else if i == 6 {
        "model_q4.onnx_data"@
    } else if i == 7 {
        "embedding-tokenizer.json"@
    } else if i == 8 {
        "sherpa-onnx-pyannote-segmentation-3-0.tar.bz2"@
    } else if i == 9 {
        "3dspeaker_speech_eres2net_base_sv_zh-cn_3dspeaker_16k.onnx"@
    } else {
        Seq::empty()
    }
}

/// Download size of the `i`-th required model.
pub open spec fn model_size(i: int) -> u64 {
    if i == 0 {
        2000000
    } else if i == 1 {
        470000000
    } else if i == 2 {
        8000000
    } else if i == 3 {
        648000000
    } else if i == 4 {
        9000000
    } else if i == 5 {
        520000
    } else if i == 6 {
        197000000
    } else if i == 7 {
        5000000
    } else if i == 8 {
        5500000
    } else if i == 9 {
        26000000
    } else {
        0
    }
}

fn model(id: &str, name: &str, url: &str, size_bytes: u64, filename: &str, is_archive: bool) -> (r: ModelInfo)
    ensures
        r.id@ == id@,
        r.name@ == name@,
        r.url@ == url@,
        r.size_bytes == size_bytes,
        r.filename@ == filename@,
        r.is_archive == is_archive,
{
    ModelInfo {
        id: string_of(&chars_of(id)),
        name: string_of(&chars_of(name)),
        url: string_of(&chars_of(url)),
        size_bytes,
        filename: string_of(&chars_of(filename)),
        is_archive,
    }
}

/// The models the application needs, in download order.
pub fn get_required_models() -> (r: Vec<ModelInfo>)
    ensures
        r@.len() == MODEL_COUNT,
        forall|i: int|
            0 <= i < MODEL_COUNT ==> {
                &&& (#[trigger] r@[i]).id@ == model_id(i)
                &&& r@[i].filename@ == model_file(i)
                &&& r@[i].size_bytes == model_size(i)
                &&& r@[i].is_archive == model_is_archive(i)
            },
{
    let mut out: Vec<ModelInfo> = Vec::new();
    out.push(model("silero-vad", "Silero VAD", "https://github.com/k2-fsa/sherpa-onnx/releases/download/asr-models/silero_vad.onnx", 2000000, "silero_vad.onnx", false));
    out.push(model("sensevoice", "SenseVoice ASR", "https://github.com/k2-fsa/sherpa-onnx/releases/download/asr-models/sherpa-onnx-sense-voice-zh-en-ja-ko-yue-2024-07-17.tar.bz2", 470000000, "sherpa-onnx-sense-voice-zh-en-ja-ko-yue-2024-07-17.tar.bz2", true));
    out.push(model("smart-turn-v3", "Smart Turn v3", "https://huggingface.co/pipecat-ai/smart-turn-v3/resolve/main/smart-turn-v3.0.onnx", 8000000, "smart-turn-v3.onnx", false));
    out.push(model("gliner-model", "GLiNER Multitask (Large)", "https://huggingface.co/onnx-community/gliner-multitask-large-v0.5/resolve/main/onnx/model_int8.onnx", 648000000, "gliner-model.onnx", false));
    out.push(model("gliner-tokenizer", "GLiNER Tokenizer", "https://huggingface.co/onnx-community/gliner-multitask-large-v0.5/resolve/main/tokenizer.json", 9000000, "gliner-tokenizer.json", false));
    out.push(model("embedding-model", "EmbeddingGemma (300M Q4)", "https://huggingface.co/onnx-community/embeddinggemma-300m-ONNX/resolve/main/onnx/model_q4.onnx", 520000, "model_q4.onnx", false));
    out.push(model("embedding-model-data", "EmbeddingGemma Data", "https://huggingface.co/onnx-community/embeddinggemma-300m-ONNX/resolve/main/onnx/model_q4.onnx_data", 197000000, "model_q4.onnx_data", false));
    out.push(model("embedding-tokenizer", "EmbeddingGemma Tokenizer", "https://huggingface.co/onnx-community/embeddinggemma-300m-ONNX/resolve/main/tokenizer.json", 5000000, "embedding-tokenizer.json", false));
    out.push(model("speaker-segmentation", "Speaker Segmentation (Pyannote)", "https://github.com/k2-fsa/sherpa-onnx/releases/download/speaker-segmentation-models/sherpa-onnx-pyannote-segmentation-3-0.tar.bz2", 5500000, "sherpa-onnx-pyannote-segmentation-3-0.tar.bz2", true));
    out.push(model("speaker-embedding", "Speaker Embedding (3D-Speaker)", "https://github.com/k2-fsa/sherpa-onnx/releases/download/speaker-recongition-models/3dspeaker_speech_eres2net_base_sv_zh-cn_3dspeaker_16k.onnx", 26000000, "3dspeaker_speech_eres2net_base_sv_zh-cn_3dspeaker_16k.onnx", false));
    out
}

/// Whether the `i`-th required model comes as an archive.
pub open spec fn model_is_archive(i: int) -> bool {
    i == 1 || i == 8
}

/// Whether the `i`-th required model is installed.
pub open spec fn model_installed(i: int, files: Seq<Seq<char>>) -> bool {
    installed(model_id(i), model_file(i), model_is_archive(i), files)
}

/// Whether the file at this relative path is present.
pub open spec fn has_file(files: Seq<Seq<char>>, path: Seq<char>) -> bool {
    files.contains(path)
}

/// A model is installed when its files are present: the file itself, or for
/// an archive the files unpacked from it.
pub open spec fn installed(id: Seq<char>, filename: Seq<char>, is_archive: bool, files: Seq<Seq<char>>) -> bool {
    if is_archive {
        if id == "sensevoice"@ {
            (has_file(files, "sherpa-onnx-sense-voice-zh-en-ja-ko-yue-2024-07-17/model.onnx"@)
                || has_file(files, "sherpa-onnx-sense-voice-zh-en-ja-ko-yue-2024-07-17/model.int8.onnx"@))
                && has_file(files, "sherpa-onnx-sense-voice-zh-en-ja-ko-yue-2024-07-17/tokens.txt"@)
        } else if id == "speaker-segmentation"@ {
            has_file(files, "sherpa-onnx-pyannote-segmentation-3-0/model.onnx"@)
        } else {
            false
        }
    } else {
        has_file(files, filename)
    }
}

fn has_file_exec(files: &Vec<String>, path: &str) -> (r: bool)
    ensures
        r == has_file(files.deep_view(), path@),
{
    let mut i: usize = 0;
    while i < files.len()
        invariant
            i <= files.len(),
            forall|k: int| 0 <= k < i ==> files.deep_view()[k] != path@,
        decreases files.len() - i,
    {
        if str_eq(files[i].as_str(), path) {
            assert(files.deep_view()[i as int] == path@);
            return true;
        }
        i += 1;
    }
    false
}

/// Whether a model is installed, given the relative paths of the files
/// present in the models directory.
pub fn is_model_installed(model: &ModelInfo, files: &Vec<String>) -> (r: bool)
    ensures
        r == installed(model.id@, model.filename@, model.is_archive, files.deep_view()),
{
    if model.is_archive {
        if str_eq(model.id.as_str(), "sensevoice") {
            (has_file_exec(files, "sherpa-onnx-sense-voice-zh-en-ja-ko-yue-2024-07-17/model.onnx")
                || has_file_exec(files, "sherpa-onnx-sense-voice-zh-en-ja-ko-yue-2024-07-17/model.int8.onnx"))
                && has_file_exec(files, "sherpa-onnx-sense-voice-zh-en-ja-ko-yue-2024-07-17/tokens.txt")
        } else if str_eq(model.id.as_str(), "speaker-segmentation") {
            has_file_exec(files, "sherpa-onnx-pyannote-segmentation-3-0/model.onnx")
        } else {
            false
        }
    } else {
        has_file_exec(files, model.filename.as_str())
    }
}

/// The status of every required model, in download order.
pub fn get_models_status(files: &Vec<String>) -> (r: Vec<ModelStatus>)
    ensures
        r@.len() == MODEL_COUNT,
        forall|i: int|
            0 <= i < MODEL_COUNT ==> {
                &&& (#[trigger] r@[i]).id@ == model_id(i)
                &&& r@[i].size_bytes == model_size(i)
                &&& r@[i].installed == model_installed(i, files.deep_view())
            },
{
    let models = get_required_models();
    let mut out: Vec<ModelStatus> = Vec::new();
    let mut i: usize = 0;
    while i < models.len()
        invariant
            i <= models.len(),
            models@.len() == MODEL_COUNT,
            forall|k: int|
                0 <= k < MODEL_COUNT ==> {
                    &&& (#[trigger] models@[k]).id@ == model_id(k)
                    &&& models@[k].filename@ == model_file(k)
                    &&& models@[k].size_bytes == model_size(k)
                    &&& models@[k].is_archive == model_is_archive(k)
                },
            out@.len() == i,
            forall|k: int|
                0 <= k < i ==> {
                    &&& (#[trigger] out@[k]).id@ == model_id(k)
                    &&& out@[k].size_bytes == model_size(k)
                    &&& out@[k].installed == model_installed(k, files.deep_view())
                },
        decreases models.len() - i,
    {
        let m = &models[i];
        let s = ModelStatus {
            id: m.id.clone(),
            name: m.name.clone(),
            installed: is_model_installed(m, files),
            size_bytes: m.size_bytes,
        };
        out.push(s);
        i += 1;
    }
    out
}

/// Whether every required model is installed.
pub fn all_models_installed(files: &Vec<String>) -> (r: bool)
    ensures
        r == forall|i: int|
            0 <= i < MODEL_COUNT ==> #[trigger] model_installed(i, files.deep_view()),
{
    let status = get_models_status(files);
    let mut i: usize = 0;
    while i < status.len()
        invariant
            i <= status.len(),
            status@.len() == MODEL_COUNT,
            forall|k: int|
                0 <= k < MODEL_COUNT ==> (#[trigger] status@[k]).installed == model_installed(
                    k,
                    files.deep_view(),
                ),
            forall|k: int| 0 <= k < i ==> #[trigger] status@[k].installed,
        decreases status.len() - i,
    {
        if !status[i].installed {
            assert(!model_installed(i as int, files.deep_view()));
            return false;
        }
        i += 1;
    }
    assert forall|k: int| 0 <= k < MODEL_COUNT implies #[trigger] model_installed(k, files.deep_view()) by {
        assert(status@[k].installed);
    }
    true
}

} // verus!
