# osfragment-assemble

Composes bootc-compatible OS images from fragment images. A manifest names a
base image and a list of fragments; each fragment is an OCI image whose layers
carry metadata (`fragment/fragment.toml`), files (`fragment/tree/`), a hook
(`fragment/hooks/entrypoint`) and build-mount material (`fragment/mount/`).

## Layout

- `src/` is the library: everything that decides or computes, with its
  behaviour stated in contracts and proved by Verus.
  - `text`, `path`: strings and Unix path text.
  - `fragment`, `manifest`, `classify`: names, metadata and the manifest.
  - `mount`: mount points and the rules that derive them.
  - `layer`, `repos`: reading and materializing a layer.
  - `json`, `registry`, `oci`: what a registry answers, and image layouts.
  - `loader`: loading fragments, one by one and as a manifest lists them.
  - `validate`: the rules that fragments meet together.
  - `inspect`, `list`, `ocp`: what the commands show and write.
  - `self_contained`, `output`, `restrict`: the self-contained build context.
- `app/` is the program around it: the command line, `skopeo`, the file
  system, and the serde types of the files that users write.
- `tests/` runs the library on concrete inputs.

Laws that relate several functions are the public proof functions whose names
begin with `law_`.
