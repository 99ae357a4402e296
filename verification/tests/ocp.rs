use osfragment_assemble::ocp::{generate_machine_os_config, OCP_CONTAINERFILE_LIMIT};

#[test]
fn generates_v1_yaml_structure() {
    let containerfile = "FROM configs AS final\nCOPY --from=quay.io/test/epel:10 /fragment/tree/ /\nRUN bootc container lint\n";
    let output = generate_machine_os_config(containerfile, "worker").unwrap();
    // v1 API version
    assert!(output.contains("apiVersion: machineconfiguration.openshift.io/v1"));
    assert!(!output.contains("v1alpha1"));
    assert!(output.contains("kind: MachineOSConfig"));

    // name-matching rule: metadata.name == spec.machineConfigPool.name
    assert!(output.contains("  name: worker"));
    assert!(output.contains("    name: worker"));

    // v1 flat fields, not buildInputs/buildOutputs
    assert!(output.contains("  containerFile:"));
    assert!(!output.contains("buildInputs"));
    assert!(!output.contains("buildOutputs"));

    // Content structure
    assert!(output.contains("    - containerfileArch: NoArch"));
    assert!(output.contains("      content: |"));
    assert!(output.contains("        FROM configs AS final"));

    // Job builder type
    assert!(output.contains("  imageBuilder:"));
    assert!(output.contains("    imageBuilderType: Job"));
    assert!(!output.contains("PodImageBuilder"));

    // v1 field names with correct casing
    assert!(output.contains("  renderedImagePushSpec:"));
    assert!(output.contains("  renderedImagePushSecret:"));

    // baseImagePullSecret not emitted
    assert!(!output.contains("baseImagePullSecret"));
    // currentImagePullSecret removed
    assert!(!output.contains("currentImagePullSecret"));
}

#[test]
fn uses_custom_pool_name() {
    let containerfile = "FROM configs AS final\nRUN bootc container lint\n";
    let output = generate_machine_os_config(containerfile, "infra").unwrap();
    // metadata.name and machineConfigPool.name both use pool
    let name_count = output.matches("name: infra").count();
    assert_eq!(name_count, 2);
}

#[test]
fn rejects_oversized_containerfile() {
    let containerfile = "x".repeat(OCP_CONTAINERFILE_LIMIT + 1);
    let result = generate_machine_os_config(&containerfile, "worker");
    assert!(result.is_err());
    let err = result.unwrap_err();
    assert!(err.contains("4096"));
    assert_eq!(
        err,
        "OCP Containerfile exceeds 4096 character limit (4097 chars): reduce fragments or packages to fit within MachineOSConfig API limits"
    );
}

#[test]
fn indents_containerfile_content() {
    let containerfile = "FROM configs AS final\nRUN echo hello\n";
    let output = generate_machine_os_config(containerfile, "worker").unwrap();
    // Content lines are indented by 8 spaces (v1 structure)
    assert!(output.contains("        FROM configs AS final"));
    assert!(output.contains("        RUN echo hello"));
}

#[test]
fn emits_noarch_in_pascal_case() {
    let containerfile = "FROM configs AS final\n";
    let output = generate_machine_os_config(containerfile, "worker").unwrap();
    // PascalCase NoArch, not lowercase noarch
    assert!(output.contains("containerfileArch: NoArch"));
    assert!(!output.contains("containerfileArch: noarch"));
}

#[test]
fn emits_rendered_image_push_secret_at_spec_level() {
    let containerfile = "FROM configs AS final\n";
    let output = generate_machine_os_config(containerfile, "worker").unwrap();
    // v1 location: spec.renderedImagePushSecret
    assert!(output.contains("  renderedImagePushSecret:"));
    assert!(output.contains("    name: REPLACE_WITH_SECRET_NAME"));
}

#[test]
fn the_whole_manifest_is_as_documented() {
    let output = generate_machine_os_config("A\r\n\nB", "p").unwrap();
    assert_eq!(
        output,
        "apiVersion: machineconfiguration.openshift.io/v1\n\
         kind: MachineOSConfig\n\
         metadata:\n\
         \x20 name: p\n\
         spec:\n\
         \x20 machineConfigPool:\n\
         \x20   name: p\n\
         \x20 containerFile:\n\
         \x20   - containerfileArch: NoArch\n\
         \x20     content: |\n\
         \x20       A\n\
         \n\
         \x20       B\n\
         \x20 imageBuilder:\n\
         \x20   imageBuilderType: Job\n\
         \x20 renderedImagePushSecret:\n\
         \x20   name: REPLACE_WITH_SECRET_NAME  # e.g., builder-dockercfg-xxxxx\n\
         \x20 renderedImagePushSpec: image-registry.openshift-image-registry.svc:5000/openshift-machine-config-operator/os-images:latest\n"
    );
}

#[test]
fn the_limit_counts_characters_and_is_inclusive() {
    assert!(generate_machine_os_config(&"x".repeat(OCP_CONTAINERFILE_LIMIT), "worker").is_ok());
    let widest = "\u{e9}".repeat(4096);
    assert!(generate_machine_os_config(&widest, "worker").is_ok());
    let wider = "\u{e9}".repeat(4097);
    assert!(generate_machine_os_config(&wider, "worker").unwrap_err().contains("(4097 chars)"));
}
