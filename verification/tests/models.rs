use novelai_api::api::AiGenerateTextResponse;
use novelai_api::model::{ImageModel, TextModel};

#[test]
fn default_text_model_is_kayra() {
    assert_eq!(TextModel::default(), TextModel::KayraV1);
}

#[test]
fn default_image_model_is_nai_diffusion_3() {
    assert_eq!(ImageModel::default(), ImageModel::NaiDiffusion3);
}

#[test]
fn text_models_are_ordered_and_hashable() {
    assert!(TextModel::Variant2Period7B < TextModel::KayraV1);
    let copy = TextModel::ClioV1;
    assert_eq!(copy.clone(), TextModel::ClioV1);
}

#[test]
fn text_response_carries_its_output() {
    let response = AiGenerateTextResponse {
        output: "generated".to_string(),
    };
    assert_eq!(response.clone().output, "generated");
}
