//! User settings kept in the portable data folder.
use vstd::prelude::*;

use crate::text::owned;

verus! {

#[derive(Debug, Clone)]
pub struct Settings {
    pub api_endpoint: String,
    pub api_key: String,
    pub api_model: String,
    pub analysis_language: String,
    pub voice_id: String,
    pub voice_model: String,
    pub voice_language: String,
    pub voice_style: String,
    pub voicestudio_url: String,
    pub tts_model_repo: String,
    pub asr_model_repo: String,
    pub output_subdirectory: String,
    pub burn_subtitles: bool,
    pub notify_complete: bool,
    pub check_updates_on_start: bool,
    pub last_input_directory: String,
}

/// The settings used on first start and for every field a saved file leaves out.
pub open spec fn is_default_settings(s: Settings) -> bool {
    &&& s.api_endpoint@ == "http://127.0.0.1:20128/v1"@
    &&& s.api_key@ == Seq::<char>::empty()
    &&& s.api_model@ == "gpt-5.6-sol"@
    &&& s.analysis_language@ == "English"@
    &&& s.voice_id@ == "default"@
    &&& s.voice_model@ == "omnivoice"@
    &&& s.voice_language@ == "en"@
    &&& s.voice_style@ == "clear documentary narration"@
    &&& s.voicestudio_url@ == "http://127.0.0.1:3900"@
    &&& s.tts_model_repo@ == "k2-fsa/OmniVoice"@
    &&& s.asr_model_repo@ == "deepdml/faster-whisper-large-v3-turbo-ct2"@
    &&& s.output_subdirectory@ == "recaps_da_render"@
    &&& !s.burn_subtitles
    &&& s.notify_complete
    &&& s.check_updates_on_start
    &&& s.last_input_directory@ == Seq::<char>::empty()
}

impl Default for Settings {
    fn default() -> (s: Self)
        ensures
            is_default_settings(s),
    {
        Settings {
            api_endpoint: owned("http://127.0.0.1:20128/v1"),
            api_key: String::new(),
            api_model: owned("gpt-5.6-sol"),
            analysis_language: owned("English"),
            voice_id: owned("default"),
            voice_model: owned("omnivoice"),
            voice_language: owned("en"),
            voice_style: owned("clear documentary narration"),
            voicestudio_url: owned("http://127.0.0.1:3900"),
            tts_model_repo: owned("k2-fsa/OmniVoice"),
            asr_model_repo: owned("deepdml/faster-whisper-large-v3-turbo-ct2"),
            output_subdirectory: owned("recaps_da_render"),
            burn_subtitles: false,
            notify_complete: true,
            check_updates_on_start: true,
            last_input_directory: String::new(),
        }
    }
}

} // verus!
